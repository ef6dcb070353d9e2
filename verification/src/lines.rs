//! Framing of an index file: the bytes of a file as lines, and lines as the
//! bytes of a file.
//!
//! A file is a run of lines, each closed by a line feed. On reading, the last
//! line may lack its line feed, and a carriage return before a line feed
//! belongs to the line's end. On writing, every line gets one line feed.

use vstd::prelude::*;

verus! {

/// The line feed.
pub const LF: u8 = 10;

/// The carriage return.
pub const CR: u8 = 13;

/// Where the first line of the bytes ends: the place of the first line feed,
/// or the length of the bytes if there is none.
pub open spec fn line_end(data: Seq<u8>) -> int
    decreases data.len(),
{
    if data.len() == 0 || data[0] == LF {
        0
    } else {
        1 + line_end(data.drop_first())
    }
}

/// A line without the carriage return that stood before its line feed.
pub open spec fn chomped(line: Seq<u8>) -> Seq<u8> {
    if line.len() > 0 && line.last() == CR {
        line.drop_last()
    } else {
        line
    }
}

/// The lines of a file, without their ends.
pub open spec fn lines_of(data: Seq<u8>) -> Seq<Seq<u8>>
    decreases data.len(),
    via lines_of_decreases
{
    if data.len() == 0 {
        Seq::empty()
    } else if line_end(data) == data.len() {
        seq![data]
    } else {
        seq![chomped(data.take(line_end(data)))] + lines_of(data.skip(line_end(data) + 1))
    }
}

#[via_fn]
proof fn lines_of_decreases(data: Seq<u8>) {
    lemma_line_end(data);
}

/// The first line ends inside the bytes, at a line feed unless at their end,
/// and holds no line feed.
pub proof fn lemma_line_end(data: Seq<u8>)
    ensures
        0 <= line_end(data) <= data.len(),
        line_end(data) < data.len() ==> data[line_end(data)] == LF,
        forall|j: int| 0 <= j < line_end(data) ==> data[j] != LF,
    decreases data.len(),
{
    if !(data.len() == 0 || data[0] == LF) {
        let rest = data.drop_first();
        lemma_line_end(rest);
        assert forall|j: int| 0 <= j < line_end(data) implies data[j] != LF by {
            if j > 0 {
                assert(data[j] == rest[j - 1]);
            }
        }
    }
}

/// A place that has what the end of the first line has is that end.
proof fn lemma_line_end_found(data: Seq<u8>, n: int)
    requires
        0 <= n <= data.len(),
        forall|j: int| 0 <= j < n ==> data[j] != LF,
        n < data.len() ==> data[n] == LF,
    ensures
        line_end(data) == n,
    decreases data.len(),
{
    if n > 0 {
        let rest = data.drop_first();
        assert(data[0] != LF);
        assert forall|j: int| 0 <= j < n - 1 implies rest[j] != LF by {
            assert(rest[j] == data[j + 1]);
        }
        lemma_line_end_found(rest, n - 1);
    }
}

/// The bytes of a file that holds the lines: each line, then a line feed.
pub open spec fn framed(lines: Seq<Seq<u8>>) -> Seq<u8>
    decreases lines.len(),
{
    if lines.len() == 0 {
        Seq::empty()
    } else {
        framed(lines.drop_last()) + lines.last() + seq![LF]
    }
}

/// The lines that are not empty, in order.
pub open spec fn non_empty(lines: Seq<Seq<u8>>) -> Seq<Seq<u8>>
    decreases lines.len(),
{
    if lines.len() == 0 {
        Seq::empty()
    } else if lines.last().len() == 0 {
        non_empty(lines.drop_last())
    } else {
        non_empty(lines.drop_last()).push(lines.last())
    }
}

/// The byte sequences that a list of byte vectors holds.
pub open spec fn byte_lines(lines: Seq<Vec<u8>>) -> Seq<Seq<u8>> {
    Seq::new(lines.len(), |i: int| lines[i]@)
}

/// A line that framing keeps: it is not empty, holds no line feed and does
/// not end in a carriage return.
pub open spec fn plain(line: Seq<u8>) -> bool {
    line.len() > 0 && line.last() != CR && forall|j: int| 0 <= j < line.len() ==> line[j] != LF
}

/// Framing puts the first line first.
proof fn lemma_framed_front(lines: Seq<Seq<u8>>)
    requires
        lines.len() > 0,
    ensures
        framed(lines) == lines[0] + seq![LF] + framed(lines.drop_first()),
    decreases lines.len(),
{
    if lines.len() == 1 {
        assert(lines.drop_last() =~= Seq::empty());
        assert(lines.drop_first() =~= Seq::empty());
        assert(framed(lines) =~= lines[0] + seq![LF] + framed(lines.drop_first()));
    } else {
        lemma_framed_front(lines.drop_last());
        assert(lines.drop_last().drop_first() =~= lines.drop_first().drop_last());
        assert(lines.drop_first().last() == lines.last());
        assert(lines.drop_last()[0] == lines[0]);
        assert(framed(lines) =~= lines[0] + seq![LF] + framed(lines.drop_first()));
    }
}

/// Reading the non-empty lines takes the first line first.
proof fn lemma_non_empty_front(lines: Seq<Seq<u8>>)
    requires
        lines.len() > 0,
    ensures
        non_empty(lines) == if lines[0].len() == 0 {
            non_empty(lines.drop_first())
        } else {
            seq![lines[0]] + non_empty(lines.drop_first())
        },
    decreases lines.len(),
{
    if lines.len() == 1 {
        assert(lines.drop_last() =~= Seq::empty());
        assert(lines.drop_first() =~= Seq::empty());
        assert(non_empty(lines.drop_last()).push(lines.last()) =~= seq![lines[0]] + non_empty(
            lines.drop_first(),
        ));
    } else {
        lemma_non_empty_front(lines.drop_last());
        assert(lines.drop_last().drop_first() =~= lines.drop_first().drop_last());
        assert(lines.drop_first().last() == lines.last());
        assert(lines.drop_last()[0] == lines[0]);
        if lines.last().len() != 0 {
            if lines[0].len() == 0 {
            } else {
                assert((seq![lines[0]] + non_empty(lines.drop_last().drop_first())).push(
                    lines.last(),
                ) =~= seq![lines[0]] + non_empty(lines.drop_last().drop_first()).push(lines.last()));
            }
        }
    }
}

/// What is written is what is read back: a file framed from plain lines
/// holds exactly those lines, and none of them is empty.
pub proof fn lemma_framing_round_trip(lines: Seq<Seq<u8>>)
    requires
        forall|i: int| 0 <= i < lines.len() ==> plain(#[trigger] lines[i]),
    ensures
        lines_of(framed(lines)) == lines,
        non_empty(lines) == lines,
        non_empty(lines_of(framed(lines))) == lines,
    decreases lines.len(),
{
    if lines.len() == 0 {
        assert(lines =~= Seq::empty());
    } else {
        let first = lines[0];
        let rest = lines.drop_first();
        assert(plain(first));
        assert forall|i: int| 0 <= i < rest.len() implies plain(#[trigger] rest[i]) by {
            assert(rest[i] == lines[i + 1]);
        }
        lemma_framing_round_trip(rest);
        lemma_framed_front(lines);
        lemma_non_empty_front(lines);
        let data = framed(lines);
        assert(data =~= first + seq![LF] + framed(rest));
        lemma_line_end_found(data, first.len() as int);
        assert(data.take(first.len() as int) =~= first);
        assert(data.skip(first.len() as int + 1) =~= framed(rest));
        assert(seq![first] + rest =~= lines);
    }
}

/// Splits the bytes of a file into its lines.
pub fn split_lines(data: &[u8]) -> (lines: Vec<Vec<u8>>)
    ensures
        byte_lines(lines@) == lines_of(data@),
{
    let mut lines: Vec<Vec<u8>> = Vec::new();
    let mut start: usize = 0;
    assert(data@.skip(0) =~= data@);
    assert(byte_lines(lines@) + lines_of(data@.skip(0)) =~= lines_of(data@));
    while start < data.len()
        invariant
            start <= data.len(),
            byte_lines(lines@) + lines_of(data@.skip(start as int)) == lines_of(data@),
        decreases data.len() - start,
    {
        let ghost rest = data@.skip(start as int);
        let ghost done = byte_lines(lines@);
        let mut line: Vec<u8> = Vec::new();
        let mut end: usize = start;
        while end < data.len() && data[end] != LF
            invariant
                start <= end <= data.len(),
                line@ == data@.subrange(start as int, end as int),
                forall|k: int| start <= k < end ==> data@[k] != LF,
            decreases data.len() - end,
        {
            line.push(data[end]);
            end += 1;
            assert(line@ =~= data@.subrange(start as int, end as int));
        }
        proof {
            assert forall|j: int| 0 <= j < end - start implies rest[j] != LF by {
                assert(rest[j] == data@[start + j]);
            }
            lemma_line_end_found(rest, end - start);
            assert(rest.take(end - start) =~= line@);
        }
        if end < data.len() {
            if line.len() > 0 && line[line.len() - 1] == CR {
                line.pop();
                assert(line@ =~= chomped(rest.take(end - start)));
            }
            assert(rest.skip(end - start + 1) =~= data@.skip(end as int + 1));
            lines.push(line);
            assert(byte_lines(lines@) =~= done + seq![line@]);
            assert(done + (seq![line@] + lines_of(data@.skip(end as int + 1))) =~= done + seq![
                line@,
            ] + lines_of(data@.skip(end as int + 1)));
            start = end + 1;
        } else {
            assert(rest =~= line@);
            lines.push(line);
            assert(byte_lines(lines@) =~= done + seq![line@]);
            start = end;
            assert(lines_of(data@.skip(start as int)) =~= Seq::empty());
        }
    }
    assert(lines_of(data@.skip(start as int)) =~= Seq::empty());
    lines
}

/// Keeps the lines that are not empty.
pub fn drop_empty_lines(lines: Vec<Vec<u8>>) -> (kept: Vec<Vec<u8>>)
    ensures
        byte_lines(kept@) == non_empty(byte_lines(lines@)),
{
    let ghost all = byte_lines(lines@);
    let mut input = lines;
    let mut kept: Vec<Vec<u8>> = Vec::new();
    let mut i: usize = 0;
    assert(all.take(0) =~= Seq::empty());
    assert(byte_lines(kept@) =~= Seq::empty());
    while i < input.len()
        invariant
            i <= input.len(),
            byte_lines(input@).len() == all.len(),
            forall|j: int| i <= j < all.len() ==> #[trigger] input@[j]@ == all[j],
            byte_lines(kept@) == non_empty(all.take(i as int)),
        decreases input.len() - i,
    {
        proof {
            assert(all.take(i as int + 1).drop_last() =~= all.take(i as int));
            assert(all.take(i as int + 1).last() == all[i as int]);
        }
        if input[i].len() > 0 {
            let ghost before = byte_lines(kept@);
            let mut line: Vec<u8> = Vec::new();
            core::mem::swap(&mut input[i], &mut line);
            kept.push(line);
            assert(byte_lines(kept@) =~= before.push(all[i as int]));
        }
        i += 1;
    }
    assert(all.take(i as int) =~= all);
    kept
}

/// The bytes of a file that holds the lines: each line, then a line feed.
pub fn join_lines(lines: &Vec<Vec<u8>>) -> (data: Vec<u8>)
    ensures
        data@ == framed(byte_lines(lines@)),
{
    let ghost all = byte_lines(lines@);
    let mut data: Vec<u8> = Vec::new();
    let mut i: usize = 0;
    assert(all.take(0) =~= Seq::empty());
    while i < lines.len()
        invariant
            i <= lines.len(),
            all == byte_lines(lines@),
            data@ == framed(all.take(i as int)),
        decreases lines.len() - i,
    {
        let ghost before = data@;
        let line = &lines[i];
        let mut j: usize = 0;
        while j < line.len()
            invariant
                j <= line.len(),
                data@ == before + line@.take(j as int),
            decreases line.len() - j,
        {
            data.push(line[j]);
            j += 1;
            assert(data@ =~= before + line@.take(j as int));
        }
        data.push(LF);
        proof {
            assert(line@.take(j as int) =~= line@);
            assert(all.take(i as int + 1).drop_last() =~= all.take(i as int));
            assert(all.take(i as int + 1).last() == line@);
            assert(data@ =~= before + line@ + seq![LF]);
        }
        i += 1;
    }
    assert(all.take(i as int) =~= all);
    data
}

} // verus!
