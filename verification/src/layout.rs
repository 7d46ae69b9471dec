//! What holds of the text of every document: that it depends on the document
//! alone, where the lines of a container stand, how they are indented and
//! how they are separated.

use crate::decimal::{decimal, is_digit, lemma_decimal_shape};
use crate::key_order::{ascending_keys, key_lt, lemma_ascending_keys};
use crate::render::{
    element_line, element_lines, indentation, member_line, member_lines, render, separator,
};
use crate::value::{Json, Value};
use vstd::prelude::*;

verus! {

/// Two texts made of one document at one depth are the same text.
pub proof fn lemma_render_deterministic(
    document: Json,
    depth: nat,
    first: Seq<char>,
    second: Seq<char>,
)
    requires
        first == render(document@, depth),
        second == render(document@, depth),
    ensures
        first == second,
{
}

/// Null is written as the word `Null` between double quotes, a truth value
/// as the word `true` or `false` between double quotes, and a number in
/// decimal notation, which holds no double quote.
pub proof fn lemma_scalar_texts(depth: nat, number: int)
    ensures
        render(Value::Null, depth) == seq!['"', 'N', 'u', 'l', 'l', '"'],
        render(Value::Bool(true), depth) == seq!['"', 't', 'r', 'u', 'e', '"'],
        render(Value::Bool(false), depth) == seq!['"', 'f', 'a', 'l', 's', 'e', '"'],
        render(Value::Number(number), depth) == decimal(number),
        !decimal(number).contains('"'),
{
    assert(render(Value::Null, depth) =~= seq!['"', 'N', 'u', 'l', 'l', '"']);
    assert(render(Value::Bool(true), depth) =~= seq!['"', 't', 'r', 'u', 'e', '"']);
    assert(render(Value::Bool(false), depth) =~= seq!['"', 'f', 'a', 'l', 's', 'e', '"']);
    lemma_decimal_shape(number);
    if decimal(number).contains('"') {
        let i = choose|i: int| 0 <= i < decimal(number).len() && decimal(number)[i] == '"';
        assert(is_digit(decimal(number)[i]) || decimal(number)[i] == '-');
    }
}

/// A text is written between double quotes with every character as it is.
pub proof fn lemma_text_verbatim(text: Seq<char>, depth: nat)
    ensures
        render(Value::Str(text), depth).len() == text.len() + 2,
        render(Value::Str(text), depth).first() == '"',
        render(Value::Str(text), depth).last() == '"',
        render(Value::Str(text), depth).subrange(1, text.len() as int + 1) == text,
{
    assert(render(Value::Str(text), depth).subrange(1, text.len() as int + 1) =~= text);
}

/// A container without items is its opening bracket, a line feed, the margin
/// of its depth and its closing bracket.
pub proof fn lemma_empty_containers(depth: nat)
    ensures
        render(Value::Arr(Seq::empty()), depth) == seq!['[', '\n'] + indentation(depth) + seq![
            ']',
        ],
        render(Value::Dict(Map::empty()), depth) == seq!['{', '\n'] + indentation(depth) + seq![
            '}',
        ],
        render(Value::Arr(Seq::empty()), 0) == seq!['[', '\n', ']'],
        render(Value::Dict(Map::empty()), 0) == seq!['{', '\n', '}'],
{
    let no_members = Map::<Seq<char>, Value>::empty();
    assert(no_members.len() == 0);
    assert(render(Value::Arr(Seq::empty()), depth) =~= seq!['[', '\n'] + indentation(depth)
        + seq![']']);
    assert(render(Value::Dict(no_members), depth) =~= seq!['{', '\n'] + indentation(depth)
        + seq!['}']);
    assert(render(Value::Arr(Seq::empty()), 0) =~= seq!['[', '\n', ']']);
    assert(render(Value::Dict(no_members), 0) =~= seq!['{', '\n', '}']);
}

/// The margin of depth `depth` is `2 * depth` spaces.
pub proof fn lemma_indentation_is_spaces(depth: nat)
    ensures
        indentation(depth).len() == 2 * depth,
        forall|i: int| 0 <= i < 2 * depth ==> indentation(depth)[i] == ' ',
{
}

/// The text of a document is not empty and does not begin with a space.
pub proof fn lemma_render_starts_with_mark(v: Value, depth: nat)
    ensures
        render(v, depth).len() > 0,
        render(v, depth).first() != ' ',
{
    match v {
        Value::Number(n) => {
            lemma_decimal_shape(n);
            assert(is_digit(decimal(n)[0]) || decimal(n)[0] == '-');
        },
        _ => {},
    }
}

/// A line can be cut out of a text that holds it between an opening, the
/// lines before it, the lines after it, a margin and a closing.
proof fn lemma_cut_line(
    open: Seq<char>,
    before: Seq<char>,
    line: Seq<char>,
    rest: Seq<char>,
    margin: Seq<char>,
    close: Seq<char>,
)
    ensures
        ({
            let text = open + (before + line + rest) + margin + close;
            let start = (open.len() + before.len()) as int;
            &&& start + line.len() <= text.len()
            &&& text.subrange(start, start + line.len()) == line
        }),
{
    let text = open + (before + line + rest) + margin + close;
    let start = (open.len() + before.len()) as int;
    assert(text.subrange(start, start + line.len()) =~= line);
}

/// A text that opens another is followed in it by the rest of it.
proof fn lemma_prefix_split(part: Seq<char>, whole: Seq<char>)
    requires
        part.is_prefix_of(whole),
    ensures
        whole == part + whole.subrange(part.len() as int, whole.len() as int),
{
    assert(whole =~= part + whole.subrange(part.len() as int, whole.len() as int));
}

/// The lines of the first elements of an array open the lines of any
/// larger number of its elements.
pub proof fn lemma_element_lines_prefix(items: Seq<Value>, depth: nat, fewer: nat, more: nat)
    requires
        fewer <= more <= items.len(),
    ensures
        element_lines(items, depth, fewer).is_prefix_of(element_lines(items, depth, more)),
    decreases more,
{
    if fewer < more {
        lemma_element_lines_prefix(items, depth, fewer, (more - 1) as nat);
    }
}

/// The lines of the first members of an object open the lines of any larger
/// number of its members.
pub proof fn lemma_member_lines_prefix(
    members: Map<Seq<char>, Value>,
    depth: nat,
    fewer: nat,
    more: nat,
)
    requires
        fewer <= more <= members.len(),
    ensures
        member_lines(members, depth, fewer).is_prefix_of(member_lines(members, depth, more)),
    decreases more,
{
    if fewer < more {
        lemma_member_lines_prefix(members, depth, fewer, (more - 1) as nat);
    }
}

/// An array lists its elements in the order of the sequence: behind the
/// opening bracket and its line feed, the line of each element stands where
/// the lines of the elements before it end, and the line of the next element
/// begins where it ends.
pub proof fn lemma_element_line_position(items: Seq<Value>, depth: nat, place: int)
    requires
        0 <= place < items.len(),
    ensures
        ({
            let text = render(Value::Arr(items), depth);
            let start = 2 + element_lines(items, depth, place as nat).len() as int;
            let end = 2 + element_lines(items, depth, (place + 1) as nat).len() as int;
            &&& end == start + element_line(items, depth, place).len()
            &&& start < end <= text.len()
            &&& text.subrange(start, end) == element_line(items, depth, place)
        }),
{
    let text = render(Value::Arr(items), depth);
    let all = element_lines(items, depth, items.len());
    let before = element_lines(items, depth, place as nat);
    let through = element_lines(items, depth, (place + 1) as nat);
    let line = element_line(items, depth, place);
    lemma_element_lines_prefix(items, depth, (place + 1) as nat, items.len());
    lemma_prefix_split(through, all);
    let rest = all.subrange(through.len() as int, all.len() as int);
    assert(through == before + line);
    assert(line.len() > 0);
    lemma_cut_line(seq!['[', '\n'], before, line, rest, indentation(depth), seq![']']);
}

/// An object lists its members in ascending order of their keys: the keys
/// of the lines ascend, the line of each member stands where the lines of
/// the members before it end, and the line of the next member begins where
/// it ends.
pub proof fn lemma_member_line_position(members: Map<Seq<char>, Value>, depth: nat, place: int)
    requires
        members.dom().finite(),
        0 <= place < members.len(),
    ensures
        ({
            let keys = ascending_keys(members.dom());
            let text = render(Value::Dict(members), depth);
            let start = 2 + member_lines(members, depth, place as nat).len() as int;
            let end = 2 + member_lines(members, depth, (place + 1) as nat).len() as int;
            &&& keys.len() == members.len()
            &&& members.contains_key(keys[place])
            &&& forall|later: int| place < later < keys.len() ==> key_lt(keys[place], keys[later])
            &&& end == start + member_line(members, depth, place).len()
            &&& start < end <= text.len()
            &&& text.subrange(start, end) == member_line(members, depth, place)
        }),
{
    let keys = ascending_keys(members.dom());
    let text = render(Value::Dict(members), depth);
    let all = member_lines(members, depth, members.len());
    let before = member_lines(members, depth, place as nat);
    let through = member_lines(members, depth, (place + 1) as nat);
    let line = member_line(members, depth, place);
    lemma_ascending_keys(members.dom());
    assert(keys.to_set().contains(keys[place]));
    lemma_member_lines_prefix(members, depth, (place + 1) as nat, members.len());
    lemma_prefix_split(through, all);
    let rest = all.subrange(through.len() as int, all.len() as int);
    assert(through == before + line);
    assert(line.len() > 0);
    lemma_cut_line(seq!['{', '\n'], before, line, rest, indentation(depth), seq!['}']);
}

/// The order in which two members with different keys are put into an
/// object does not change its text.
pub proof fn lemma_insertion_order_irrelevant(
    members: Map<Seq<char>, Value>,
    key: Seq<char>,
    member: Value,
    other_key: Seq<char>,
    other: Value,
    depth: nat,
)
    requires
        key != other_key,
    ensures
        render(Value::Dict(members.insert(key, member).insert(other_key, other)), depth) == render(
            Value::Dict(members.insert(other_key, other).insert(key, member)),
            depth,
        ),
{
    assert(members.insert(key, member).insert(other_key, other) =~= members.insert(
        other_key,
        other,
    ).insert(key, member));
}

/// The line of an element of an array at depth `depth` begins with exactly
/// `2 * (depth + 1)` spaces: what follows them is no space.
pub proof fn lemma_element_line_margin(items: Seq<Value>, depth: nat, place: int)
    requires
        0 <= place < items.len(),
    ensures
        ({
            let line = element_line(items, depth, place);
            let width = 2 * (depth as int + 1);
            &&& line.len() > width
            &&& forall|i: int| 0 <= i < width ==> line[i] == ' '
            &&& line[width] != ' '
            &&& line.last() == '\n'
        }),
{
    lemma_render_starts_with_mark(items[place], depth + 1);
}

/// The line of a member of an object at depth `depth` begins with exactly
/// `2 * (depth + 1)` spaces: what follows them is the double quote that
/// opens the key.
pub proof fn lemma_member_line_margin(members: Map<Seq<char>, Value>, depth: nat, place: int)
    requires
        members.dom().finite(),
        0 <= place < members.len(),
    ensures
        ({
            let line = member_line(members, depth, place);
            let width = 2 * (depth as int + 1);
            &&& line.len() > width
            &&& forall|i: int| 0 <= i < width ==> line[i] == ' '
            &&& line[width] == '"'
            &&& line.last() == '\n'
        }),
{
    let keys = ascending_keys(members.dom());
    lemma_ascending_keys(members.dom());
    assert(keys.to_set().contains(keys[place]));
}

/// The text of a container at depth `depth` ends with a line feed, exactly
/// `2 * depth` spaces and the closing bracket.
pub proof fn lemma_closing_bracket_margin(v: Value, depth: nat)
    requires
        v is Arr || v is Dict,
        v matches Value::Dict(members) ==> members.dom().finite(),
    ensures
        ({
            let text = render(v, depth);
            let width = 2 * depth as int;
            &&& text.len() >= width + 3
            &&& text.last() == if v is Arr {
                ']'
            } else {
                '}'
            }
            &&& forall|i: int| text.len() - 1 - width <= i < text.len() - 1 ==> text[i] == ' '
            &&& text[text.len() - 2 - width] == '\n'
        }),
{
    let text = render(v, depth);
    match v {
        Value::Arr(items) => {
            let head = seq!['[', '\n'] + element_lines(items, depth, items.len());
            assert(text == head + indentation(depth) + seq![']']);
            if items.len() > 0 {
                lemma_element_line_margin(items, depth, items.len() - 1);
                assert(head.last() == element_line(items, depth, items.len() - 1).last());
            }
            assert(head.last() == '\n');
            assert(text[text.len() - 2 - 2 * depth] == head.last());
        },
        Value::Dict(members) => {
            let head = seq!['{', '\n'] + member_lines(members, depth, members.len());
            assert(text == head + indentation(depth) + seq!['}']);
            if members.len() > 0 {
                lemma_member_line_margin(members, depth, members.len() - 1);
                assert(head.last() == member_line(members, depth, members.len() - 1).last());
            }
            assert(head.last() == '\n');
            assert(text[text.len() - 2 - 2 * depth] == head.last());
        },
        _ => {},
    }
}

/// The number of places of `text` that hold `mark`.
pub open spec fn occurrences(text: Seq<char>, mark: char) -> nat
    decreases text.len(),
{
    if text.len() == 0 {
        0
    } else {
        occurrences(text.drop_last(), mark) + if text.last() == mark {
            1nat
        } else {
            0nat
        }
    }
}

/// A mark occurs in a text of two parts as often as in both parts together.
pub proof fn lemma_occurrences_concat(left: Seq<char>, right: Seq<char>, mark: char)
    ensures
        occurrences(left + right, mark) == occurrences(left, mark) + occurrences(right, mark),
    decreases right.len(),
{
    if right.len() == 0 {
        assert(left + right =~= left);
    } else {
        lemma_occurrences_concat(left, right.drop_last(), mark);
        assert((left + right).drop_last() =~= left + right.drop_last());
    }
}

/// A mark that stands at no place of a text occurs in it zero times.
proof fn lemma_occurrences_none(text: Seq<char>, mark: char)
    requires
        forall|i: int| 0 <= i < text.len() ==> text[i] != mark,
    ensures
        occurrences(text, mark) == 0,
    decreases text.len(),
{
    if text.len() > 0 {
        lemma_occurrences_none(text.drop_last(), mark);
    }
}

/// The commas in the texts of the first `count` elements of an array at
/// depth `depth`.
pub open spec fn commas_within_elements(items: Seq<Value>, depth: nat, count: nat) -> nat
    decreases count,
{
    if 0 < count <= items.len() {
        commas_within_elements(items, depth, (count - 1) as nat) + occurrences(
            render(items[count - 1], depth + 1),
            ',',
        )
    } else {
        0
    }
}

/// The commas in the keys and in the texts of the first `count` members of
/// an object at depth `depth`.
pub open spec fn commas_within_members(
    members: Map<Seq<char>, Value>,
    depth: nat,
    count: nat,
) -> nat
    decreases count,
{
    if 0 < count <= members.len() {
        let key = ascending_keys(members.dom())[count - 1];
        commas_within_members(members, depth, (count - 1) as nat) + occurrences(key, ',')
            + occurrences(render(members[key], depth + 1), ',')
    } else {
        0
    }
}

/// The separators behind the first `count` of `of` items: one behind each
/// but the last of them all.
pub open spec fn separators(count: nat, of: nat) -> nat {
    if count < of {
        count
    } else if of > 0 {
        (of - 1) as nat
    } else {
        0
    }
}

/// What ends a line holds one comma behind every item but the last.
proof fn lemma_line_end_commas(place: int, count: int)
    requires
        0 <= place < count,
    ensures
        occurrences(separator(place, count) + seq!['\n'], ',') == if place + 1 < count {
            1nat
        } else {
            0nat
        },
{
    let end = separator(place, count) + seq!['\n'];
    if place + 1 < count {
        assert(end.drop_last() =~= seq![',']);
        assert(seq![','].drop_last() =~= Seq::<char>::empty());
        assert(occurrences(Seq::<char>::empty(), ',') == 0);
        assert(occurrences(seq![','], ',') == 1);
    } else {
        lemma_occurrences_none(end, ',');
    }
}

/// The lines of the first `count` elements hold the commas of those
/// elements and one separator for each line that is not the last.
proof fn lemma_element_lines_commas(items: Seq<Value>, depth: nat, count: nat)
    requires
        count <= items.len(),
    ensures
        occurrences(element_lines(items, depth, count), ',') == commas_within_elements(
            items,
            depth,
            count,
        ) + separators(count, items.len()),
    decreases count,
{
    if count > 0 {
        let place = count - 1;
        lemma_element_lines_commas(items, depth, place as nat);
        let before = element_lines(items, depth, place as nat);
        let margin = indentation(depth + 1);
        let item = render(items[place], depth + 1);
        let end = separator(place, items.len() as int) + seq!['\n'];
        assert(element_line(items, depth, place) =~= margin + (item + end));
        assert(element_lines(items, depth, count) == before + element_line(items, depth, place));
        lemma_occurrences_concat(before, margin + (item + end), ',');
        lemma_occurrences_concat(margin, item + end, ',');
        lemma_occurrences_concat(item, end, ',');
        lemma_occurrences_none(margin, ',');
        lemma_line_end_commas(place, items.len() as int);
    }
}

/// The lines of the first `count` members hold the commas of those members
/// and of their keys and one separator for each line that is not the last.
proof fn lemma_member_lines_commas(members: Map<Seq<char>, Value>, depth: nat, count: nat)
    requires
        members.dom().finite(),
        count <= members.len(),
    ensures
        occurrences(member_lines(members, depth, count), ',') == commas_within_members(
            members,
            depth,
            count,
        ) + separators(count, members.len()),
    decreases count,
{
    if count > 0 {
        let place = count - 1;
        lemma_member_lines_commas(members, depth, place as nat);
        let keys = ascending_keys(members.dom());
        lemma_ascending_keys(members.dom());
        assert(keys.to_set().contains(keys[place]));
        let before = member_lines(members, depth, place as nat);
        let margin = indentation(depth + 1);
        let open = seq!['"'];
        let colon = seq!['"'] + seq![':', ' '];
        let item = render(members[keys[place]], depth + 1);
        let end = separator(place, members.len() as int) + seq!['\n'];
        let from_item = item + end;
        let from_colon = colon + from_item;
        let from_key = keys[place] + from_colon;
        let from_quote = open + from_key;
        let line = margin + from_quote;
        assert(member_line(members, depth, place) =~= line);
        assert(member_lines(members, depth, count) == before + member_line(members, depth, place));
        lemma_occurrences_concat(before, line, ',');
        lemma_occurrences_concat(margin, from_quote, ',');
        lemma_occurrences_concat(open, from_key, ',');
        lemma_occurrences_concat(keys[place], from_colon, ',');
        lemma_occurrences_concat(colon, from_item, ',');
        lemma_occurrences_concat(item, end, ',');
        lemma_occurrences_none(margin, ',');
        lemma_occurrences_none(open, ',');
        lemma_occurrences_none(colon, ',');
        lemma_line_end_commas(place, members.len() as int);
    }
}

/// An array of `n` elements has in its text the commas of its elements and
/// `n - 1` more, one behind each element but the last; an empty array has
/// none.
pub proof fn lemma_array_commas(items: Seq<Value>, depth: nat)
    ensures
        occurrences(render(Value::Arr(items), depth), ',') == commas_within_elements(
            items,
            depth,
            items.len(),
        ) + if items.len() > 0 {
            items.len() - 1
        } else {
            0
        },
{
    let open = seq!['[', '\n'];
    let lines = element_lines(items, depth, items.len());
    let margin = indentation(depth);
    let close = seq![']'];
    lemma_element_lines_commas(items, depth, items.len());
    assert(render(Value::Arr(items), depth) =~= open + (lines + (margin + close)));
    lemma_occurrences_concat(open, lines + (margin + close), ',');
    lemma_occurrences_concat(lines, margin + close, ',');
    lemma_occurrences_concat(margin, close, ',');
    lemma_occurrences_none(open, ',');
    lemma_occurrences_none(margin, ',');
    lemma_occurrences_none(close, ',');
}

/// An object of `n` members has in its text the commas of its members and
/// of their keys and `n - 1` more, one behind each member but the last; an
/// empty object has none.
pub proof fn lemma_object_commas(members: Map<Seq<char>, Value>, depth: nat)
    requires
        members.dom().finite(),
    ensures
        occurrences(render(Value::Dict(members), depth), ',') == commas_within_members(
            members,
            depth,
            members.len(),
        ) + if members.len() > 0 {
            members.len() - 1
        } else {
            0
        },
{
    let open = seq!['{', '\n'];
    let lines = member_lines(members, depth, members.len());
    let margin = indentation(depth);
    let close = seq!['}'];
    lemma_member_lines_commas(members, depth, members.len());
    assert(render(Value::Dict(members), depth) =~= open + (lines + (margin + close)));
    lemma_occurrences_concat(open, lines + (margin + close), ',');
    lemma_occurrences_concat(lines, margin + close, ',');
    lemma_occurrences_concat(margin, close, ',');
    lemma_occurrences_none(open, ',');
    lemma_occurrences_none(margin, ',');
    lemma_occurrences_none(close, ',');
}

} // verus!
