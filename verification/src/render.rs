//! The indented text of a document.

use crate::decimal::{decimal, push_decimal};
use crate::key_order::{ascending_keys, lemma_ascending_keys};
use crate::value::{Json, Value};
use vstd::prelude::*;
use vstd::string::StringExecFns;

verus! {

/// The margin of a line at nesting depth `depth`: two spaces for each level.
pub open spec fn indentation(depth: nat) -> Seq<char> {
    Seq::new(2 * depth, |i: int| ' ')
}

/// `text` between double quotes, every character of it as it is.
pub open spec fn quoted(text: Seq<char>) -> Seq<char> {
    seq!['"'] + text + seq!['"']
}

/// What follows the item at `place` among `count` items: a comma, unless the
/// item is the last.
pub open spec fn separator(place: int, count: int) -> Seq<char> {
    if place + 1 < count {
        seq![',']
    } else {
        Seq::empty()
    }
}

/// The text of the document `v` when it stands at nesting depth `depth`.
///
/// A number is written in decimal notation. A text, the word `Null` and the
/// words `true` and `false` are written between double quotes. An array is
/// an opening bracket, a line for each element in the order of the sequence,
/// and the closing bracket behind the margin of the array's own depth. An
/// object is the same between braces, with a line for each member in
/// ascending order of the keys.
pub open spec fn render(v: Value, depth: nat) -> Seq<char>
    decreases v, 0nat,
{
    match v {
        Value::Number(n) => decimal(n),
        Value::Str(s) => quoted(s),
        Value::Null => quoted(seq!['N', 'u', 'l', 'l']),
        Value::Bool(b) => quoted(
            if b {
                seq!['t', 'r', 'u', 'e']
            } else {
                seq!['f', 'a', 'l', 's', 'e']
            },
        ),
        Value::Arr(items) => seq!['[', '\n'] + element_lines(items, depth, items.len())
            + indentation(depth) + seq![']'],
        Value::Dict(members) => seq!['{', '\n'] + member_lines(members, depth, members.len())
            + indentation(depth) + seq!['}'],
    }
}

/// The line of the element at `place` in an array at depth `depth`: the
/// margin one level deeper, the element, the separator and a line feed.
pub open spec fn element_line(items: Seq<Value>, depth: nat, place: int) -> Seq<char>
    recommends
        0 <= place < items.len(),
    decreases items, 0nat,
{
    if 0 <= place < items.len() {
        indentation(depth + 1) + render(items[place], depth + 1) + separator(
            place,
            items.len() as int,
        ) + seq!['\n']
    } else {
        Seq::empty()
    }
}

/// The lines of the first `count` elements of an array, in their order.
pub open spec fn element_lines(items: Seq<Value>, depth: nat, count: nat) -> Seq<char>
    recommends
        count <= items.len(),
    decreases items, count,
{
    if 0 < count <= items.len() {
        element_lines(items, depth, (count - 1) as nat) + element_line(items, depth, count - 1)
    } else {
        Seq::empty()
    }
}

/// The line of the member at `place`, counted in ascending order of the
/// keys, of an object at depth `depth`: the margin one level deeper, the key
/// between double quotes, a colon and a space, the member, the separator and
/// a line feed.
pub open spec fn member_line(members: Map<Seq<char>, Value>, depth: nat, place: int) -> Seq<char>
    recommends
        members.dom().finite(),
        0 <= place < members.len(),
    decreases members, 0nat,
{
    let keys = ascending_keys(members.dom());
    if members.dom().finite() && 0 <= place < keys.len() && members.contains_key(keys[place]) {
        indentation(depth + 1) + quoted(keys[place]) + seq![':', ' '] + render(
            members[keys[place]],
            depth + 1,
        ) + separator(place, keys.len() as int) + seq!['\n']
    } else {
        Seq::empty()
    }
}

/// The lines of the first `count` members of an object, in ascending order
/// of the keys.
pub open spec fn member_lines(members: Map<Seq<char>, Value>, depth: nat, count: nat) -> Seq<char>
    recommends
        members.dom().finite(),
        count <= members.len(),
    decreases members, count,
{
    if 0 < count <= members.len() {
        member_lines(members, depth, (count - 1) as nat) + member_line(members, depth, count - 1)
    } else {
        Seq::empty()
    }
}

/// A text of `level` times two spaces.
fn margin_text(level: usize) -> (margin: String)
    ensures
        margin@ == indentation(level as nat),
{
    let mut margin = String::new();
    let mut i: usize = 0;
    assert(margin@ =~= indentation(0));
    while i < level
        invariant
            i <= level,
            margin@ == indentation(i as nat),
        decreases level - i,
    {
        proof {
            reveal_strlit("  ");
        }
        margin.append("  ");
        i += 1;
        assert(margin@ =~= indentation(i as nat));
    }
    margin
}

/// The margin one level deeper than `margin`.
fn deeper(margin: &str, Ghost(depth): Ghost<nat>) -> (inner: String)
    requires
        margin@ == indentation(depth),
    ensures
        inner@ == indentation(depth + 1),
{
    let mut inner = margin.to_owned();
    proof {
        reveal_strlit("  ");
    }
    inner.append("  ");
    assert(inner@ =~= indentation(depth + 1));
    inner
}

/// Appends `text` between double quotes to `out`.
fn push_quoted(text: &str, out: &mut String)
    ensures
        final(out)@ == old(out)@ + quoted(text@),
{
    proof {
        reveal_strlit("\"");
    }
    out.append("\"");
    out.append(text);
    out.append("\"");
    assert(out@ =~= old(out)@ + quoted(text@));
}

/// Appends what ends the line of the item at `place` among `count`.
fn push_line_end(place: usize, count: usize, out: &mut String)
    requires
        place < count,
    ensures
        final(out)@ == old(out)@ + separator(place as int, count as int) + seq!['\n'],
{
    proof {
        reveal_strlit(",");
        reveal_strlit("\n");
    }
    if place + 1 != count {
        out.append(",");
    }
    out.append("\n");
    assert(out@ =~= old(out)@ + separator(place as int, count as int) + seq!['\n']);
}

impl Json {
    /// Appends to `out` the text of the document at depth `depth`. For a
    /// container `margin` is the margin of that depth; other documents do
    /// not read it.
    fn render_into(&self, margin: &str, Ghost(depth): Ghost<nat>, out: &mut String)
        requires
            self is Arr || self is Dict ==> margin@ == indentation(depth),
        ensures
            final(out)@ == old(out)@ + render(self@, depth),
        decreases self@,
    {
        match self {
            Json::Number(n) => {
                push_decimal(*n, out);
            },
            Json::Str(s) => {
                push_quoted(s.as_str(), out);
            },
            Json::Null => {
                proof {
                    reveal_strlit("Null");
                }
                push_quoted("Null", out);
                assert("Null"@ =~= seq!['N', 'u', 'l', 'l']);
            },
            Json::Bool(b) => {
                proof {
                    reveal_strlit("true");
                    reveal_strlit("false");
                }
                assert("true"@ =~= seq!['t', 'r', 'u', 'e']);
                assert("false"@ =~= seq!['f', 'a', 'l', 's', 'e']);
                push_quoted(
                    if *b {
                        "true"
                    } else {
                        "false"
                    },
                    out,
                );
            },
            Json::Arr(items) => {
                let ghost model = self@->Arr_0;
                proof {
                    reveal_strlit("[\n");
                    reveal_strlit("]");
                }
                out.append("[\n");
                let inner = deeper(margin, Ghost(depth));
                let count = items.len();
                let mut place: usize = 0;
                assert(out@ =~= old(out)@ + seq!['[', '\n'] + element_lines(model, depth, 0));
                while place < count
                    invariant
                        place <= count == items.len() == model.len(),
                        forall|i: int| 0 <= i < items.len() ==> items[i]@ == #[trigger] model[i],
                        self@ == Value::Arr(model),
                        inner@ == indentation(depth + 1),
                        out@ == old(out)@ + seq!['[', '\n'] + element_lines(
                            model,
                            depth,
                            place as nat,
                        ),
                    decreases count - place,
                {
                    let ghost start = out@;
                    out.append(inner.as_str());
                    assert(decreases_to!(self@ => self@->Arr_0));
                    assert(decreases_to!(model => model[place as int]));
                    items[place].render_into(inner.as_str(), Ghost(depth + 1), out);
                    push_line_end(place, count, out);
                    assert(out@ =~= start + element_line(model, depth, place as int));
                    place += 1;
                    assert(out@ =~= old(out)@ + seq!['[', '\n'] + element_lines(
                        model,
                        depth,
                        place as nat,
                    ));
                }
                out.append(margin);
                out.append("]");
                assert(out@ =~= old(out)@ + render(self@, depth));
            },
            Json::Dict(object) => {
                let ghost model = object@;
                proof {
                    reveal_strlit("{\n");
                    reveal_strlit("}");
                }
                out.append("{\n");
                let inner = deeper(margin, Ghost(depth));
                let count = object.len();
                let mut place: usize = 0;
                assert(out@ =~= old(out)@ + seq!['{', '\n'] + member_lines(model, depth, 0));
                while place < count
                    invariant
                        place <= count == model.len(),
                        model.dom().finite(),
                        self@ == Value::Dict(model),
                        object@ == model,
                        inner@ == indentation(depth + 1),
                        out@ == old(out)@ + seq!['{', '\n'] + member_lines(
                            model,
                            depth,
                            place as nat,
                        ),
                    decreases count - place,
                {
                    let ghost start = out@;
                    proof {
                        reveal_strlit(": ");
                        lemma_ascending_keys(model.dom());
                    }
                    if let Some((key, value)) = object.nth(place) {
                        out.append(inner.as_str());
                        push_quoted(key.as_str(), out);
                        out.append(": ");
                        assert(decreases_to!(self@ => self@->Dict_0));
                        value.render_into(inner.as_str(), Ghost(depth + 1), out);
                        push_line_end(place, count, out);
                    }
                    assert(out@ =~= start + member_line(model, depth, place as int));
                    place += 1;
                    assert(out@ =~= old(out)@ + seq!['{', '\n'] + member_lines(
                        model,
                        depth,
                        place as nat,
                    ));
                }
                out.append(margin);
                out.append("}");
                assert(out@ =~= old(out)@ + render(self@, depth));
            },
        }
    }

    /// Appends to `all` the text of the document as it stands at nesting
    /// depth `level`.
    pub fn pretty(&self, level: usize, all: &mut String)
        ensures
            final(all)@ == old(all)@ + render(self@, level as nat),
    {
        match self {
            Json::Arr(_) | Json::Dict(_) => {
                let margin = margin_text(level);
                self.render_into(margin.as_str(), Ghost(level as nat), all);
            },
            _ => {
                self.render_into("", Ghost(level as nat), all);
            },
        }
    }

    /// The text of the document.
    pub fn to_string(&self) -> (text: String)
        ensures
            text@ == render(self@, 0),
    {
        let mut text = String::new();
        self.pretty(0, &mut text);
        assert(text@ =~= render(self@, 0));
        text
    }
}

} // verus!
