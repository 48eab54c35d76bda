//! Line units: a text cut after each newline.

use vstd::prelude::*;
use vstd::std_specs::iter::IteratorSpec;
use vstd::string::StringExecFns;

verus! {

/// `String::push` appends one character to the end of the string.
pub assume_specification[ String::push ](s: &mut String, c: char)
    ensures
        final(s)@ == old(s)@.push(c),
;

/// The character that terminates a line unit.
pub open spec fn is_newline(c: char) -> bool {
    c == '\n'
}

/// Length of the first line unit of `text`: everything up to and including the
/// first newline, or the whole text when it holds no newline.
pub open spec fn first_unit_len(text: Seq<char>) -> nat
    decreases text.len(),
{
    if text.len() == 0 {
        0
    } else if is_newline(text[0]) {
        1
    } else {
        1 + first_unit_len(text.drop_first())
    }
}

/// The line units of `text`, in order.  Each unit keeps its terminating
/// newline; only the last unit may lack one.  The empty text has no units.
pub open spec fn line_units(text: Seq<char>) -> Seq<Seq<char>>
    decreases text.len(),
    via line_units_decreases
{
    if text.len() == 0 {
        Seq::empty()
    } else {
        let k = first_unit_len(text) as int;
        seq![text.take(k)] + line_units(text.skip(k))
    }
}

#[via_fn]
proof fn line_units_decreases(text: Seq<char>) {
    if text.len() != 0 {
        lemma_first_unit_len_bounds(text);
    }
}

/// The texts held by a vector of lines.
pub open spec fn line_views(lines: Seq<String>) -> Seq<Seq<char>> {
    Seq::new(lines.len(), |i: int| lines[i]@)
}

/// A unit is well formed when it is not empty and holds no newline before its
/// last character.
pub open spec fn is_unit(unit: Seq<char>) -> bool {
    &&& unit.len() > 0
    &&& forall|i: int| 0 <= i < unit.len() - 1 ==> !is_newline(#[trigger] unit[i])
}

/// A unit is terminated when its last character is a newline.
pub open spec fn is_terminated(unit: Seq<char>) -> bool {
    unit.len() > 0 && is_newline(unit.last())
}

/// The first unit of a text that is not empty is not empty and lies within
/// the text.
pub proof fn lemma_first_unit_len_bounds(text: Seq<char>)
    requires
        text.len() > 0,
    ensures
        0 < first_unit_len(text) <= text.len(),
    decreases text.len(),
{
    if !is_newline(text[0]) && text.len() > 1 {
        lemma_first_unit_len_bounds(text.drop_first());
    }
    if !is_newline(text[0]) && text.len() == 1 {
        assert(first_unit_len(text.drop_first()) == 0);
    }
}

/// Where the first newline of `text` stands at index `k`, the first unit has
/// length `k + 1`.
pub proof fn lemma_first_unit_at_newline(text: Seq<char>, k: int)
    requires
        0 <= k < text.len(),
        is_newline(text[k]),
        forall|i: int| 0 <= i < k ==> !is_newline(#[trigger] text[i]),
    ensures
        first_unit_len(text) == k + 1,
    decreases k,
{
    if k > 0 {
        let rest = text.drop_first();
        assert forall|i: int| 0 <= i < k - 1 implies !is_newline(#[trigger] rest[i]) by {
            assert(rest[i] == text[i + 1]);
        }
        lemma_first_unit_at_newline(rest, k - 1);
    }
}

/// A text without any newline is one unit.
pub proof fn lemma_first_unit_without_newline(text: Seq<char>)
    requires
        forall|i: int| 0 <= i < text.len() ==> !is_newline(#[trigger] text[i]),
    ensures
        first_unit_len(text) == text.len(),
    decreases text.len(),
{
    if text.len() > 0 {
        let rest = text.drop_first();
        assert forall|i: int| 0 <= i < rest.len() implies !is_newline(#[trigger] rest[i]) by {
            assert(rest[i] == text[i + 1]);
        }
        lemma_first_unit_without_newline(rest);
    }
}

/// Concatenating the line units of a text gives the text back.
pub proof fn lemma_units_round_trip(text: Seq<char>)
    ensures
        line_units(text).flatten() == text,
    decreases text.len(),
{
    if text.len() == 0 {
        assert(line_units(text).flatten() =~= text);
    } else {
        lemma_first_unit_len_bounds(text);
        let k = first_unit_len(text) as int;
        lemma_units_round_trip(text.skip(k));
        let head = seq![text.take(k)];
        let tail = line_units(text.skip(k));
        vstd::seq_lib::lemma_flatten_concat(head, tail);
        head.lemma_flatten_one_element();
        assert(text.take(k) + text.skip(k) =~= text);
    }
}

/// The first unit holds no newline before its last character, and it ends
/// in a newline unless it is the whole text.
pub proof fn lemma_first_unit_shape(text: Seq<char>)
    requires
        text.len() > 0,
    ensures
        0 < first_unit_len(text) <= text.len(),
        forall|i: int| 0 <= i < first_unit_len(text) - 1 ==> !is_newline(#[trigger] text[i]),
        first_unit_len(text) < text.len() ==> is_newline(text[first_unit_len(text) - 1]),
    decreases text.len(),
{
    lemma_first_unit_len_bounds(text);
    if !is_newline(text[0]) && text.len() > 1 {
        let rest = text.drop_first();
        lemma_first_unit_shape(rest);
        assert forall|i: int| 0 <= i < first_unit_len(text) - 1 implies !is_newline(
            #[trigger] text[i],
        ) by {
            if i > 0 {
                assert(text[i] == rest[i - 1]);
            }
        }
        assert(text[first_unit_len(text) - 1] == rest[first_unit_len(rest) - 1]);
    }
}

/// Shape law.  Every line unit is well formed, and every unit but the
/// last is terminated.  There are no more units than characters.
pub proof fn lemma_units_shape(text: Seq<char>)
    ensures
        line_units(text).len() <= text.len(),
        forall|i: int| 0 <= i < line_units(text).len() ==> is_unit(#[trigger] line_units(text)[i]),
        forall|i: int|
            0 <= i < line_units(text).len() - 1 ==> is_terminated(#[trigger] line_units(text)[i]),
        text.len() > 0 ==> line_units(text).len() > 0 && (is_terminated(line_units(text).last())
            <==> is_newline(text.last())),
    decreases text.len(),
{
    if text.len() > 0 {
        lemma_first_unit_shape(text);
        let k = first_unit_len(text) as int;
        let head = text.take(k);
        let rest = text.skip(k);
        let tail = line_units(rest);
        let units = line_units(text);
        lemma_units_shape(rest);
        assert(units =~= seq![head] + tail);
        assert(is_unit(head)) by {
            assert forall|i: int| 0 <= i < head.len() - 1 implies !is_newline(#[trigger] head[i]) by {
                assert(head[i] == text[i]);
            }
        }
        assert forall|i: int| 0 <= i < units.len() implies is_unit(#[trigger] units[i]) by {
            if i > 0 {
                assert(units[i] == tail[i - 1]);
            }
        }
        assert forall|i: int| 0 <= i < units.len() - 1 implies is_terminated(
            #[trigger] units[i],
        ) by {
            if i > 0 {
                assert(units[i] == tail[i - 1]);
            } else {
                assert(rest.len() > 0);
                assert(head.last() == text[k - 1]);
            }
        }
        if rest.len() > 0 {
            assert(units.last() == tail.last());
            assert(rest.last() == text.last());
        } else {
            assert(tail.len() == 0);
            assert(units.last() == head);
            assert(head =~= text);
            if is_newline(text.last()) {
            } else {
            }
        }
    }
}

/// Appending one line to a vector appends its text to the texts.
pub proof fn lemma_line_views_push(lines: Seq<String>, line: String)
    ensures
        line_views(lines.push(line)) == line_views(lines).push(line@),
{
    assert(line_views(lines.push(line)) =~= line_views(lines).push(line@));
}

/// Cuts `text` into its line units.
pub fn split_lines(text: &str) -> (lines: Vec<String>)
    ensures
        line_views(lines@) == line_units(text@),
        line_views(lines@).flatten() == text@,
{
    let mut lines: Vec<String> = Vec::new();
    let mut cur = String::new();
    let ghost mut start: int = 0;
    let mut it = text.chars();
    proof {
        vstd::string::axiom_spec_iter(text);
        assert(text@.skip(0) =~= text@);
        assert(cur@ =~= text@.subrange(0, 0));
        assert(line_views(lines@) =~= Seq::empty());
    }
    loop
        invariant_except_break
            line_units(text@) == line_views(lines@) + line_units(text@.skip(start)),
        invariant
            it.obeys_prophetic_iter_laws(),
            0 <= start <= text@.len(),
            start + cur@.len() <= text@.len(),
            it.remaining() == text@.skip(start + cur@.len()),
            cur@ == text@.subrange(start, start + cur@.len()),
            forall|i: int| 0 <= i < cur@.len() ==> !is_newline(#[trigger] cur@[i]),
        ensures
            line_views(lines@) == line_units(text@),
        decreases text@.len() - (start + cur@.len()),
    {
        let ghost before_next = it.remaining();
        let ghost pos = start + cur@.len();
        match it.next() {
            None => {
                let ghost rest = text@.skip(start);
                proof {
                    assert(before_next.len() == 0);
                    assert(pos == text@.len());
                    assert(rest =~= cur@);
                    lemma_first_unit_without_newline(rest);
                }
                if !cur.as_str().is_empty() {
                    proof {
                        lemma_line_views_push(lines@, cur);
                        assert(rest.take(rest.len() as int) =~= rest);
                        assert(rest.skip(rest.len() as int).len() == 0);
                        assert(line_units(rest.skip(rest.len() as int)) =~= Seq::empty());
                        assert(line_units(rest) =~= seq![cur@]);
                    }
                    lines.push(cur);
                } else {
                    proof {
                        assert(line_units(rest) =~= Seq::empty());
                    }
                }
                break;
            },
            Some(c) => {
                proof {
                    assert(before_next.len() > 0);
                    assert(c == text@[pos]);
                    assert(it.remaining() =~= text@.skip(pos + 1));
                }
                cur.push(c);
                proof {
                    assert(cur@ =~= text@.subrange(start, pos + 1));
                }
                if c == '\n' {
                    proof {
                        let rest = text@.skip(start);
                        let k = pos - start;
                        lemma_first_unit_at_newline(rest, k);
                        assert(rest.take(k + 1) =~= cur@);
                        assert(rest.skip(k + 1) =~= text@.skip(pos + 1));
                        lemma_line_views_push(lines@, cur);
                        assert(line_views(lines@.push(cur)) + line_units(text@.skip(pos + 1))
                            =~= line_views(lines@) + line_units(rest));
                        start = pos + 1;
                    }
                    lines.push(cur);
                    cur = String::new();
                    proof {
                        assert(cur@ =~= text@.subrange(start, start));
                    }
                }
            },
        }
    }
    proof {
        lemma_units_round_trip(text@);
    }
    lines
}

/// Concatenates lines to one text.  Applied to the line units of a text
/// it gives the text back.
pub fn join_lines(lines: &Vec<String>) -> (text: String)
    ensures
        text@ == line_views(lines@).flatten(),
{
    let ghost views = line_views(lines@);
    let mut text = String::new();
    let mut i: usize = 0;
    assert(views.take(0) =~= Seq::<Seq<char>>::empty());
    assert(text@ =~= views.take(0).flatten());
    while i < lines.len()
        invariant
            0 <= i <= lines.len(),
            views == line_views(lines@),
            text@ == views.take(i as int).flatten(),
        decreases lines.len() - i,
    {
        text.append(lines[i].as_str());
        proof {
            assert(views.take(i + 1) =~= views.take(i as int).push(lines@[i as int]@));
            views.take(i as int).lemma_flatten_push(lines@[i as int]@);
        }
        i += 1;
    }
    assert(views.take(views.len() as int) =~= views);
    text
}

} // verus!
