//! Files of records, one per line.
use crate::text::{self, chars_of, split_lines, string_of, trimmed};
use vstd::prelude::*;

verus! {

/// A record with the number of its line, counted from one.
pub struct Record {
    pub line: usize,
    pub text: String,
}

/// The lines behind the first `from` that are not blank, with their numbers.
pub open spec fn numbered(lines: Seq<Seq<char>>, from: int) -> Seq<(int, Seq<char>)>
    decreases lines.len(),
{
    if lines.len() == 0 {
        seq![]
    } else {
        let before = numbered(lines.drop_last(), from);
        if text::trim(lines.last()).len() == 0 {
            before
        } else {
            before.push((from + lines.len(), lines.last()))
        }
    }
}

/// The records of a text: its lines that are not blank.
pub open spec fn records(content: Seq<char>) -> Seq<(int, Seq<char>)> {
    numbered(text::lines(content), 0)
}

/// Numbers and texts of records.
pub open spec fn record_data(list: Seq<Record>) -> Seq<(int, Seq<char>)> {
    list.map_values(|r: Record| (r.line as int, r.text@))
}

/// Reads the records of a text.
pub fn read_records(content: &str) -> (r: Vec<Record>)
    ensures
        record_data(r@) == records(content@),
{
    let chars = chars_of(content);
    let lines = split_lines(chars.as_slice());
    let ghost all = text::lines(content@);
    let mut r: Vec<Record> = Vec::new();
    assert(all.take(0) == Seq::<Seq<char>>::empty());
    for i in 0..lines.len()
        invariant
            text::slice_views(lines@) == all,
            record_data(r@) == numbered(all.take(i as int), 0),
    {
        assert(all.take(i + 1).drop_last() == all.take(i as int));
        assert(all[i as int] == lines@[i as int]@);
        let line = lines[i];
        if trimmed(line).len() > 0 {
            let ghost before = r@;
            let record = Record { line: i + 1, text: string_of(line) };
            r.push(record);
            assert(record_data(r@) == record_data(before).push((i + 1, line@)));
        }
    }
    assert(all.take(lines@.len() as int) == all);
    r
}

/// Records, each ended by a newline.
pub open spec fn joined(list: Seq<Seq<char>>) -> Seq<char>
    decreases list.len(),
{
    if list.len() == 0 {
        seq![]
    } else {
        joined(list.drop_last()) + list.last().push('\n')
    }
}

/// Writes records, each ended by a newline.
pub fn join_records(list: &[String]) -> (r: String)
    ensures
        r@ == joined(text::views(list@)),
{
    let mut r = String::new();
    let ghost all = text::views(list@);
    assert(all.take(0) == Seq::<Seq<char>>::empty());
    for i in 0..list.len()
        invariant
            all == text::views(list@),
            r@ == joined(all.take(i as int)),
    {
        assert(all.take(i + 1).drop_last() == all.take(i as int));
        r.append(list[i].as_str());
        r.push('\n');
        assert(r@ == joined(all.take(i as int)) + all[i as int].push('\n'));
    }
    assert(all.take(list@.len() as int) == all);
    r
}

/// A text that stays one record: a line that is not blank and does not end with
/// a carriage return.
pub open spec fn is_record(s: Seq<char>) -> bool {
    &&& !s.contains('\n')
    &&& text::trim(s).len() > 0
    &&& s.last() != '\r'
}

proof fn lemma_span_of_line(s: Seq<char>, rest: Seq<char>)
    requires
        !s.contains('\n'),
    ensures
        text::span_until(s + seq!['\n'] + rest, seq!['\n']) == s.len(),
    decreases s.len(),
{
    let all = s + seq!['\n'] + rest;
    let stops = seq!['\n'];
    assert(stops.contains('\n')) by {
        assert(stops[0] == '\n');
    }
    if s.len() > 0 {
        let tail = s.drop_first();
        assert(all.drop_first() == tail + seq!['\n'] + rest);
        assert(s.contains(s[0]));
        assert(!stops.contains(s[0])) by {
            if stops.contains(s[0]) {
                let i = choose|i: int| 0 <= i < stops.len() && stops[i] == s[0];
                assert(stops[i] == '\n');
            }
        }
        assert(!tail.contains('\n')) by {
            if tail.contains('\n') {
                let i = choose|i: int| 0 <= i < tail.len() && tail[i] == '\n';
                assert(s[i + 1] == '\n');
            }
        }
        lemma_span_of_line(tail, rest);
    } else {
        assert(all.first() == '\n');
    }
}

proof fn lemma_joined_front(list: Seq<Seq<char>>)
    requires
        list.len() > 0,
    ensures
        joined(list) == list[0].push('\n') + joined(list.drop_first()),
    decreases list.len(),
{
    if list.len() == 1 {
        assert(list.drop_last() == Seq::<Seq<char>>::empty());
        assert(list.drop_first() == Seq::<Seq<char>>::empty());
        assert(joined(list) == list[0].push('\n') + joined(list.drop_first()));
    } else {
        let init = list.drop_last();
        lemma_joined_front(init);
        assert(init.drop_first() == list.drop_first().drop_last());
        assert(list.drop_first().last() == list.last());
        assert(joined(list) == list[0].push('\n') + joined(list.drop_first()));
    }
}

proof fn lemma_lines_of_joined(list: Seq<Seq<char>>)
    requires
        forall|i: int| 0 <= i < list.len() ==> is_record(#[trigger] list[i]),
    ensures
        text::lines(joined(list)) == list,
    decreases list.len(),
{
    if list.len() == 0 {
        assert(text::lines(joined(list)) == list);
    } else {
        let first = list[0];
        let rest = list.drop_first();
        assert(is_record(first));
        assert forall|i: int| 0 <= i < rest.len() implies is_record(#[trigger] rest[i]) by {
            assert(rest[i] == list[i + 1]);
        }
        lemma_joined_front(list);
        lemma_lines_of_joined(rest);
        lemma_span_of_line(first, joined(rest));
        let all = joined(list);
        assert(all == first + seq!['\n'] + joined(rest));
        assert(all.take(first.len() as int) == first);
        assert(all.skip(first.len() + 1int) == joined(rest));
        assert(text::strip_cr(first) == first);
        assert(text::lines(all) == seq![first] + list.drop_first());
        assert(text::lines(all) == list);
    }
}

proof fn lemma_numbered_keeps_all(list: Seq<Seq<char>>)
    requires
        forall|i: int| 0 <= i < list.len() ==> is_record(#[trigger] list[i]),
    ensures
        numbered(list, 0) == Seq::new(list.len(), |i: int| (i + 1, list[i])),
    decreases list.len(),
{
    if list.len() > 0 {
        let init = list.drop_last();
        assert forall|i: int| 0 <= i < init.len() implies is_record(#[trigger] init[i]) by {
            assert(init[i] == list[i]);
        }
        lemma_numbered_keeps_all(init);
        assert(is_record(list[list.len() - 1]));
    }
    assert(numbered(list, 0) == Seq::new(list.len(), |i: int| (i + 1, list[i])));
}

/// Reading gives back the records that were written, in order.
pub proof fn lemma_reading_inverts_writing(list: Seq<Seq<char>>)
    requires
        forall|i: int| 0 <= i < list.len() ==> is_record(#[trigger] list[i]),
    ensures
        records(joined(list)) == Seq::new(list.len(), |i: int| (i + 1, list[i])),
{
    lemma_lines_of_joined(list);
    lemma_numbered_keeps_all(list);
}

/// A text has a record for each line that is not blank, and no other: the line as it
/// stands, with its number, counted from one, in order.
pub proof fn lemma_records_are_the_lines(content: &str, r: Vec<Record>)
    requires
        call_ensures(read_records, (content,), r),
    ensures
        forall|j: int|
            0 <= j < r@.len() ==> {
                let x = #[trigger] r@[j];
                &&& 1 <= x.line <= text::lines(content@).len()
                &&& x.text@ == text::lines(content@)[x.line - 1]
                &&& text::trim(x.text@).len() > 0
            },
        forall|i: int, j: int|
            0 <= i < j < r@.len() ==> (#[trigger] r@[i]).line < (#[trigger] r@[j]).line,
        forall|n: int|
            0 <= n < text::lines(content@).len() && text::trim(
                #[trigger] text::lines(content@)[n],
            ).len() > 0 ==> exists|j: int| 0 <= j < r@.len() && (#[trigger] r@[j]).line == n + 1,
{
    let lines = text::lines(content@);
    let data = record_data(r@);
    lemma_numbered(lines);
    assert(data == numbered(lines, 0));
    assert forall|j: int| 0 <= j < r@.len() implies {
        let x = #[trigger] r@[j];
        &&& 1 <= x.line <= lines.len()
        &&& x.text@ == lines[x.line - 1]
        &&& text::trim(x.text@).len() > 0
    } by {
        assert(data[j] == (r@[j].line as int, r@[j].text@));
        assert(numbered(lines, 0)[j] == data[j]);
    }
    assert forall|i: int, j: int| 0 <= i < j < r@.len() implies (#[trigger] r@[i]).line < (
    #[trigger] r@[j]).line by {
        assert(data[i].0 == r@[i].line && data[j].0 == r@[j].line);
        assert(numbered(lines, 0)[i].0 < numbered(lines, 0)[j].0);
    }
    assert forall|n: int| 0 <= n < lines.len() && text::trim(#[trigger] lines[n]).len() > 0 implies exists|
        j: int,
    | 0 <= j < r@.len() && (#[trigger] r@[j]).line == n + 1 by {
        let j = choose|j: int|
            0 <= j < numbered(lines, 0).len() && (#[trigger] numbered(lines, 0)[j]).0 == n + 1;
        assert(data[j].0 == r@[j].line);
        assert(r@[j].line == n + 1);
    }
}

proof fn lemma_numbered(lines: Seq<Seq<char>>)
    ensures
        forall|j: int|
            0 <= j < numbered(lines, 0).len() ==> {
                let x = #[trigger] numbered(lines, 0)[j];
                &&& 1 <= x.0 <= lines.len()
                &&& x.1 == lines[x.0 - 1]
                &&& text::trim(x.1).len() > 0
            },
        forall|i: int, j: int|
            0 <= i < j < numbered(lines, 0).len() ==> (#[trigger] numbered(lines, 0)[i]).0 < (
            #[trigger] numbered(lines, 0)[j]).0,
        forall|n: int|
            0 <= n < lines.len() && text::trim(#[trigger] lines[n]).len() > 0 ==> exists|j: int|
                0 <= j < numbered(lines, 0).len() && (#[trigger] numbered(lines, 0)[j]).0 == n + 1,
    decreases lines.len(),
{
    if lines.len() > 0 {
        let init = lines.drop_last();
        lemma_numbered(init);
        let before = numbered(init, 0);
        let all = numbered(lines, 0);
        assert forall|j: int| 0 <= j < all.len() implies {
            let x = #[trigger] all[j];
            &&& 1 <= x.0 <= lines.len()
            &&& x.1 == lines[x.0 - 1]
            &&& text::trim(x.1).len() > 0
        } by {
            if j < before.len() {
                assert(all[j] == before[j]);
                assert(init[before[j].0 - 1] == lines[before[j].0 - 1]);
            }
        }
        assert forall|i: int, j: int| 0 <= i < j < all.len() implies (#[trigger] all[i]).0 < (
        #[trigger] all[j]).0 by {
            assert(all[i] == before[i]);
            if j < before.len() {
                assert(all[j] == before[j]);
            }
        }
        assert forall|n: int| 0 <= n < lines.len() && text::trim(#[trigger] lines[n]).len() > 0 implies exists|
            j: int,
        | 0 <= j < all.len() && (#[trigger] all[j]).0 == n + 1 by {
            if n < init.len() {
                assert(init[n] == lines[n]);
                let j = choose|j: int| 0 <= j < before.len() && (#[trigger] before[j]).0 == n + 1;
                assert(all[j].0 == n + 1);
            } else {
                assert(all[before.len() as int].0 == n + 1);
            }
        }
    }
}

/// Written records stand one after the other, each ended by a newline.
pub proof fn lemma_records_are_written(
    list: &[String],
    more: &[String],
    last: Seq<char>,
    r: String,
    q: String,
)
    requires
        text::views(more@) == text::views(list@).push(last),
        call_ensures(join_records, (list,), r),
        call_ensures(join_records, (more,), q),
    ensures
        list@.len() == 0 ==> r@.len() == 0,
        q@ == (r@ + last).push('\n'),
{
    let all = text::views(more@);
    assert(text::views(list@).len() == list@.len());
    assert(all.drop_last() == text::views(list@));
    assert(all.last() == last);
}

} // verus!
