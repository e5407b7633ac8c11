//! Text as UTF-8 bytes: searching, cutting and splitting string slices at
//! ASCII delimiters, with the byte-level functions that describe the results.

use vstd::prelude::*;
use vstd::string::StringSliceAdditionalSpecFns;
use vstd::utf8::*;

verus! {

/// The index of the first occurrence of `d` in `s`, or `s.len()` if there is none.
pub open spec fn first_pos(s: Seq<u8>, d: u8) -> int
    decreases s.len(),
{
    if s.len() == 0 || s[0] == d {
        0
    } else {
        1 + first_pos(s.drop_first(), d)
    }
}

/// `first_pos` lies within the sequence, nothing before it equals `d`, and it
/// points at `d` unless it is the length.
pub proof fn lemma_first_pos(s: Seq<u8>, d: u8)
    ensures
        0 <= first_pos(s, d) <= s.len(),
        forall|j: int| 0 <= j < first_pos(s, d) ==> s[j] != d,
        first_pos(s, d) < s.len() ==> s[first_pos(s, d)] == d,
    decreases s.len(),
{
    if s.len() == 0 || s[0] == d {
    } else {
        let t = s.drop_first();
        lemma_first_pos(t, d);
        assert forall|j: int| 0 <= j < first_pos(s, d) implies s[j] != d by {
            if j > 0 {
                assert(s[j] == t[j - 1]);
            }
        }
        assert(first_pos(s, d) < s.len() ==> s[first_pos(s, d)] == t[first_pos(t, d)]);
    }
}

/// Any index that holds `d` and has no `d` before it is `first_pos`; so is the
/// length when `d` does not occur.
pub proof fn lemma_first_pos_unique(s: Seq<u8>, d: u8, i: int)
    requires
        0 <= i <= s.len(),
        forall|j: int| 0 <= j < i ==> s[j] != d,
        i < s.len() ==> s[i] == d,
    ensures
        first_pos(s, d) == i,
{
    lemma_first_pos(s, d);
    let p = first_pos(s, d);
    if p < i {
        assert(s[p] == d);
    } else if i < p {
        assert(s[i] == d);
    }
}

/// Finds the first occurrence of `d` in `s` at or after `from`; returns the
/// length of `s` if there is none.
pub fn find_byte(s: &[u8], from: usize, d: u8) -> (i: usize)
    requires
        from <= s@.len(),
    ensures
        i == from + first_pos(s@.skip(from as int), d),
        from <= i <= s@.len(),
{
    let mut i: usize = from;
    while i < s.len() && s[i] != d
        invariant
            from <= i <= s@.len(),
            forall|j: int| from <= j < i ==> s@[j] != d,
        decreases s@.len() - i,
    {
        i += 1;
    }
    proof {
        let t = s@.skip(from as int);
        assert forall|j: int| 0 <= j < i - from implies t[j] != d by {
            assert(t[j] == s@[from + j]);
        }
        lemma_first_pos_unique(t, d, i - from);
    }
    i
}

/// In valid UTF-8 an ASCII byte stands alone: there is a character boundary
/// before it and one after it.
pub proof fn lemma_ascii_boundaries(b: Seq<u8>, i: int)
    requires
        valid_utf8(b),
        0 <= i < b.len(),
        b[i] < 0x80,
    ensures
        is_char_boundary(b, i),
        is_char_boundary(b, i + 1),
{
    is_char_boundary_iff_not_is_continuation_byte(b, i);
    if i + 1 == b.len() {
        is_char_boundary_start_end_of_seq(b);
    } else {
        valid_utf8_split(b, i);
        let tail = b.subrange(i, b.len() as int);
        assert(tail[0] == b[i]);
        assert(valid_first_scalar(tail) && valid_utf8(pop_first_scalar(tail)));
        let rest = pop_first_scalar(tail);
        assert(rest.len() == tail.len() - 1);
        assert(valid_first_scalar(rest));
        assert(rest[0] == b[i + 1]);
        is_char_boundary_iff_not_is_continuation_byte(b, i + 1);
    }
}

/// A character boundary of the whole is one of every prefix that ends at a
/// later boundary.
pub proof fn lemma_boundary_in_prefix(b: Seq<u8>, from: int, to: int)
    requires
        valid_utf8(b),
        0 <= from <= to <= b.len(),
        is_char_boundary(b, from),
        is_char_boundary(b, to),
    ensures
        valid_utf8(b.subrange(0, to)),
        is_char_boundary(b.subrange(0, to), from),
{
    valid_utf8_split(b, to);
    let head = b.subrange(0, to);
    if from == to {
        is_char_boundary_start_end_of_seq(head);
    } else {
        is_char_boundary_iff_not_is_continuation_byte(b, from);
        assert(head[from] == b[from]);
        is_char_boundary_iff_not_is_continuation_byte(head, from);
    }
}

/// The part of `s` between two character boundaries, given as byte offsets.
pub fn substr<'a>(s: &'a str, from: usize, to: usize) -> (res: &'a str)
    requires
        from <= to <= s.spec_bytes().len(),
        is_char_boundary(s.spec_bytes(), from as int),
        is_char_boundary(s.spec_bytes(), to as int),
    ensures
        res.spec_bytes() == s.spec_bytes().subrange(from as int, to as int),
{
    proof {
        encode_utf8_valid_utf8(s@);
        lemma_boundary_in_prefix(s.spec_bytes(), from as int, to as int);
    }
    let (head, _) = s.split_at(to);
    let (_, res) = head.split_at(from);
    assert(res.spec_bytes() =~= s.spec_bytes().subrange(from as int, to as int));
    res
}

/// The bytes of each string slice of a sequence.
pub open spec fn bytes_of(pieces: Seq<&str>) -> Seq<Seq<u8>> {
    Seq::new(pieces.len(), |i: int| pieces[i].spec_bytes())
}

/// The pieces of `s` between occurrences of `d`: one more piece than there
/// are occurrences, none of them holding `d`.
pub open spec fn spec_split(s: Seq<u8>, d: u8) -> Seq<Seq<u8>>
    decreases s.len(),
{
    let i = first_pos(s, d);
    if 0 <= i < s.len() {
        seq![s.take(i)] + spec_split(s.skip(i + 1), d)
    } else {
        seq![s]
    }
}

/// The pieces with `d` between each two of them.
pub open spec fn join(pieces: Seq<Seq<u8>>, d: u8) -> Seq<u8>
    decreases pieces.len(),
{
    if pieces.len() == 0 {
        Seq::empty()
    } else if pieces.len() == 1 {
        pieces[0]
    } else {
        pieces[0] + seq![d] + join(pieces.drop_first(), d)
    }
}

/// Splitting undoes joining, and joining undoes splitting: the pieces of `s`
/// are the one sequence of pieces without `d` that, joined by `d`, make `s`.
pub proof fn lemma_split_joins(s: Seq<u8>, d: u8)
    ensures
        spec_split(s, d).len() >= 1,
        join(spec_split(s, d), d) == s,
        forall|i: int|
            0 <= i < spec_split(s, d).len() ==> !(#[trigger] spec_split(s, d)[i]).contains(d),
    decreases s.len(),
{
    lemma_first_pos(s, d);
    let i = first_pos(s, d);
    let all = spec_split(s, d);
    if i < s.len() {
        let rest = spec_split(s.skip(i + 1), d);
        lemma_split_joins(s.skip(i + 1), d);
        assert(all.drop_first() =~= rest);
        assert(all[0] == s.take(i));
        assert(join(all, d) =~= s.take(i) + seq![d] + s.skip(i + 1));
        assert(s =~= s.take(i) + seq![d] + s.skip(i + 1));
        assert forall|k: int| 0 <= k < all.len() implies !(#[trigger] all[k]).contains(d) by {
            if k == 0 {
                if all[0].contains(d) {
                    let j = choose|j: int| 0 <= j < all[0].len() && all[0][j] == d;
                    assert(s[j] == d);
                }
            } else {
                assert(all[k] == rest[k - 1]);
            }
        }
    } else {
        assert(all =~= seq![s]);
        if s.contains(d) {
            let j = choose|j: int| 0 <= j < s.len() && s[j] == d;
            assert(s[j] == d);
        }
    }
}

/// Pieces without `d`, joined by `d`, split into themselves.
pub proof fn lemma_join_splits(pieces: Seq<Seq<u8>>, d: u8)
    requires
        pieces.len() >= 1,
        forall|i: int| 0 <= i < pieces.len() ==> !(#[trigger] pieces[i]).contains(d),
    ensures
        spec_split(join(pieces, d), d) == pieces,
    decreases pieces.len(),
{
    let s = join(pieces, d);
    let head = pieces[0];
    assert(!head.contains(d));
    assert forall|j: int| 0 <= j < head.len() implies head[j] != d by {
        if head[j] == d {
            assert(head.contains(d));
        }
    }
    if pieces.len() == 1 {
        lemma_first_pos_unique(s, d, s.len() as int);
        assert(spec_split(s, d) =~= pieces);
    } else {
        let rest = pieces.drop_first();
        assert forall|i: int| 0 <= i < rest.len() implies !(#[trigger] rest[i]).contains(d) by {
            assert(rest[i] == pieces[i + 1]);
        }
        lemma_join_splits(rest, d);
        assert(s =~= head + seq![d] + join(rest, d));
        assert(s[head.len() as int] == d);
        lemma_first_pos_unique(s, d, head.len() as int);
        assert(s.take(head.len() as int) =~= head);
        assert(s.skip(head.len() as int + 1) =~= join(rest, d));
        assert(spec_split(s, d) =~= seq![head] + rest);
        assert(seq![head] + rest =~= pieces);
    }
}

/// Pieces without `x`, joined by another byte, make a sequence without `x`.
pub proof fn lemma_join_holds_no(pieces: Seq<Seq<u8>>, d: u8, x: u8)
    requires
        d != x,
        forall|i: int| 0 <= i < pieces.len() ==> !(#[trigger] pieces[i]).contains(x),
    ensures
        !join(pieces, d).contains(x),
    decreases pieces.len(),
{
    let s = join(pieces, d);
    if pieces.len() >= 1 {
        let head = pieces[0];
        assert(!head.contains(x));
        if pieces.len() >= 2 {
            let rest = pieces.drop_first();
            assert forall|i: int| 0 <= i < rest.len() implies !(#[trigger] rest[i]).contains(x) by {
                assert(rest[i] == pieces[i + 1]);
            }
            lemma_join_holds_no(rest, d, x);
            let tail = join(rest, d);
            if s.contains(x) {
                let j = choose|j: int| 0 <= j < s.len() && s[j] == x;
                if j < head.len() {
                    assert(head[j] == x);
                    assert(head.contains(x));
                } else if j > head.len() {
                    assert(tail[j - head.len() - 1] == x);
                    assert(tail.contains(x));
                }
            }
        }
    } else {
        if s.contains(x) {
            let j = choose|j: int| 0 <= j < s.len() && s[j] == x;
        }
    }
}

/// `s` without one trailing carriage return, if it has one.
pub open spec fn strip_cr(s: Seq<u8>) -> Seq<u8> {
    if s.len() > 0 && s.last() == 13 {
        s.drop_last()
    } else {
        s
    }
}

/// The lines of `s`. A line ends at a line feed, or at the end of the text if
/// anything follows the last line feed. A line that ends at a line feed loses
/// one carriage return before it; the terminators belong to no line.
pub open spec fn spec_lines(s: Seq<u8>) -> Seq<Seq<u8>>
    decreases s.len(),
{
    if s.len() == 0 {
        seq![]
    } else {
        let i = first_pos(s, 10);
        if 0 <= i < s.len() {
            seq![strip_cr(s.take(i))] + spec_lines(s.skip(i + 1))
        } else {
            seq![s]
        }
    }
}

/// The lines, each with a line feed after it.
pub open spec fn unlines(lines: Seq<Seq<u8>>) -> Seq<u8>
    decreases lines.len(),
{
    if lines.len() == 0 {
        Seq::empty()
    } else {
        lines[0] + seq![10u8] + unlines(lines.drop_first())
    }
}

/// Lines that hold no line feed and end in no carriage return, written one
/// after the other with a line feed after each, are the lines of that text.
pub proof fn lemma_unlines_lines(lines: Seq<Seq<u8>>)
    requires
        forall|i: int|
            0 <= i < lines.len() ==> !(#[trigger] lines[i]).contains(10) && strip_cr(lines[i])
                == lines[i],
    ensures
        spec_lines(unlines(lines)) == lines,
    decreases lines.len(),
{
    let s = unlines(lines);
    if lines.len() == 0 {
        assert(spec_lines(s) =~= lines);
    } else {
        let head = lines[0];
        let rest = lines.drop_first();
        assert(!head.contains(10));
        assert forall|j: int| 0 <= j < head.len() implies head[j] != 10 by {
            if head[j] == 10 {
                assert(head.contains(10));
            }
        }
        assert forall|i: int| 0 <= i < rest.len() implies !(#[trigger] rest[i]).contains(10)
            && strip_cr(rest[i]) == rest[i] by {
            assert(rest[i] == lines[i + 1]);
        }
        lemma_unlines_lines(rest);
        assert(s =~= head + seq![10u8] + unlines(rest));
        assert(s[head.len() as int] == 10);
        lemma_first_pos_unique(s, 10, head.len() as int);
        assert(s.take(head.len() as int) =~= head);
        assert(s.skip(head.len() as int + 1) =~= unlines(rest));
        assert(spec_lines(s) =~= seq![head] + rest);
        assert(seq![head] + rest =~= lines);
    }
}

/// The lines of a text hold no line feed.
pub proof fn lemma_lines_hold_no_line_feed(s: Seq<u8>)
    ensures
        forall|i: int|
            0 <= i < spec_lines(s).len() ==> !(#[trigger] spec_lines(s)[i]).contains(10),
    decreases s.len(),
{
    if s.len() > 0 {
        lemma_first_pos(s, 10);
        let i = first_pos(s, 10);
        let all = spec_lines(s);
        if i < s.len() {
            let rest = spec_lines(s.skip(i + 1));
            lemma_lines_hold_no_line_feed(s.skip(i + 1));
            assert forall|k: int| 0 <= k < all.len() implies !(#[trigger] all[k]).contains(10) by {
                if k == 0 {
                    if all[0].contains(10) {
                        let j = choose|j: int| 0 <= j < all[0].len() && all[0][j] == 10;
                        assert(s.take(i)[j] == 10);
                    }
                } else {
                    assert(all[k] == rest[k - 1]);
                }
            }
        } else {
            assert(all =~= seq![s]);
            if s.contains(10) {
                let j = choose|j: int| 0 <= j < s.len() && s[j] == 10;
                assert(s[j] == 10);
            }
        }
    }
}

/// The index of the last occurrence of `d` in `s`, or -1 if there is none.
pub open spec fn last_pos(s: Seq<u8>, d: u8) -> int
    decreases s.len(),
{
    if s.len() == 0 {
        -1
    } else if s.last() == d {
        s.len() - 1
    } else {
        last_pos(s.drop_last(), d)
    }
}

/// `last_pos` points at `d` unless it is -1, and nothing after it equals `d`.
pub proof fn lemma_last_pos(s: Seq<u8>, d: u8)
    ensures
        -1 <= last_pos(s, d) < s.len(),
        forall|j: int| last_pos(s, d) < j < s.len() ==> s[j] != d,
        last_pos(s, d) >= 0 ==> s[last_pos(s, d)] == d,
    decreases s.len(),
{
    if s.len() == 0 || s.last() == d {
    } else {
        let t = s.drop_last();
        lemma_last_pos(t, d);
        assert forall|j: int| last_pos(s, d) < j < s.len() implies s[j] != d by {
            if j < t.len() {
                assert(s[j] == t[j]);
            }
        }
        assert(last_pos(s, d) >= 0 ==> s[last_pos(s, d)] == t[last_pos(t, d)]);
    }
}

/// Any index that holds `d` with no `d` after it is `last_pos`; so is -1 when
/// `d` does not occur.
pub proof fn lemma_last_pos_unique(s: Seq<u8>, d: u8, i: int)
    requires
        -1 <= i < s.len(),
        forall|j: int| i < j < s.len() ==> s[j] != d,
        i >= 0 ==> s[i] == d,
    ensures
        last_pos(s, d) == i,
{
    lemma_last_pos(s, d);
    let p = last_pos(s, d);
    if p > i {
        assert(s[p] == d);
    } else if i > p {
        assert(s[i] == d);
    }
}

/// Cuts `s` at the first occurrence of the ASCII byte `d`: what stands before
/// it and what stands after it. `None` if `d` does not occur.
pub fn split_once<'a>(s: &'a str, d: u8) -> (res: Option<(&'a str, &'a str)>)
    requires
        d < 0x80,
    ensures
        res is None <==> first_pos(s.spec_bytes(), d) == s.spec_bytes().len(),
        res matches Some((head, tail)) ==> {
            &&& head.spec_bytes() == s.spec_bytes().take(first_pos(s.spec_bytes(), d))
            &&& tail.spec_bytes() == s.spec_bytes().skip(first_pos(s.spec_bytes(), d) + 1)
        },
{
    let bytes = s.as_bytes();
    let i = find_byte(bytes, 0, d);
    proof {
        assert(bytes@.skip(0) =~= bytes@);
        lemma_first_pos(bytes@, d);
        encode_utf8_valid_utf8(s@);
        is_char_boundary_start_end_of_seq(bytes@);
    }
    if i == bytes.len() {
        None
    } else {
        proof {
            lemma_ascii_boundaries(bytes@, i as int);
        }
        let head = substr(s, 0, i);
        let tail = substr(s, i + 1, bytes.len());
        Some((head, tail))
    }
}

/// Cuts `s` at the last occurrence of the ASCII byte `d`: what stands before
/// it and what stands after it. `None` if `d` does not occur.
pub fn rsplit_once<'a>(s: &'a str, d: u8) -> (res: Option<(&'a str, &'a str)>)
    requires
        d < 0x80,
    ensures
        res is None <==> last_pos(s.spec_bytes(), d) < 0,
        res matches Some((head, tail)) ==> {
            &&& head.spec_bytes() == s.spec_bytes().take(last_pos(s.spec_bytes(), d))
            &&& tail.spec_bytes() == s.spec_bytes().skip(last_pos(s.spec_bytes(), d) + 1)
        },
{
    let bytes = s.as_bytes();
    let mut i: usize = bytes.len();
    while i > 0 && bytes[i - 1] != d
        invariant
            i <= bytes@.len(),
            forall|j: int| i <= j < bytes@.len() ==> bytes@[j] != d,
        decreases i,
    {
        i -= 1;
    }
    proof {
        lemma_last_pos_unique(bytes@, d, i - 1);
        encode_utf8_valid_utf8(s@);
        is_char_boundary_start_end_of_seq(bytes@);
    }
    if i == 0 {
        None
    } else {
        proof {
            lemma_ascii_boundaries(bytes@, i - 1);
        }
        let head = substr(s, 0, i - 1);
        let tail = substr(s, i, bytes.len());
        Some((head, tail))
    }
}

/// Cuts `s` at every occurrence of the ASCII byte `d`.
pub fn split<'a>(s: &'a str, d: u8) -> (pieces: Vec<&'a str>)
    requires
        d < 0x80,
    ensures
        bytes_of(pieces@) == spec_split(s.spec_bytes(), d),
{
    let bytes = s.as_bytes();
    let mut pieces: Vec<&'a str> = Vec::new();
    let mut start: usize = 0;
    proof {
        encode_utf8_valid_utf8(s@);
        is_char_boundary_start_end_of_seq(bytes@);
        assert(bytes@.skip(0) =~= bytes@);
        assert(bytes_of(pieces@) =~= Seq::empty());
    }
    loop
        invariant_except_break
            bytes_of(pieces@) + spec_split(bytes@.skip(start as int), d) == spec_split(bytes@, d),
        invariant
            d < 0x80,
            bytes@ == s.spec_bytes(),
            valid_utf8(bytes@),
            start <= bytes@.len(),
            is_char_boundary(bytes@, start as int),
            is_char_boundary(bytes@, bytes@.len() as int),
        ensures
            bytes_of(pieces@) == spec_split(bytes@, d),
        decreases bytes@.len() - start,
    {
        let i = find_byte(bytes, start, d);
        let ghost rest = bytes@.skip(start as int);
        let ghost before = bytes_of(pieces@);
        proof {
            lemma_first_pos(rest, d);
            if i < bytes@.len() {
                assert(rest[i - start] == bytes@[i as int]);
                lemma_ascii_boundaries(bytes@, i as int);
            }
        }
        let piece = substr(s, start, i);
        pieces.push(piece);
        proof {
            assert(rest.take(i - start) =~= bytes@.subrange(start as int, i as int));
            assert(bytes_of(pieces@) =~= before + seq![piece.spec_bytes()]);
        }
        if i == bytes.len() {
            proof {
                assert(rest.take(i - start) =~= rest);
                assert(spec_split(rest, d) =~= seq![rest]);
            }
            break ;
        }
        proof {
            assert(rest.skip(i - start + 1) =~= bytes@.skip(i + 1));
            assert(spec_split(rest, d) =~= seq![rest.take(i - start)] + spec_split(
                rest.skip(i - start + 1),
                d,
            ));
            assert(before + spec_split(rest, d) =~= (before + seq![piece.spec_bytes()]) + spec_split(
                bytes@.skip(i + 1),
                d,
            ));
        }
        start = i + 1;
    }
    pieces
}

/// Cuts `s` into its lines.
pub fn lines<'a>(s: &'a str) -> (res: Vec<&'a str>)
    ensures
        bytes_of(res@) == spec_lines(s.spec_bytes()),
{
    let bytes = s.as_bytes();
    let mut res: Vec<&'a str> = Vec::new();
    let mut start: usize = 0;
    proof {
        encode_utf8_valid_utf8(s@);
        is_char_boundary_start_end_of_seq(bytes@);
        assert(bytes@.skip(0) =~= bytes@);
        assert(bytes_of(res@) =~= Seq::empty());
    }
    while start < bytes.len()
        invariant
            bytes@ == s.spec_bytes(),
            valid_utf8(bytes@),
            start <= bytes@.len(),
            is_char_boundary(bytes@, start as int),
            is_char_boundary(bytes@, bytes@.len() as int),
            bytes_of(res@) + spec_lines(bytes@.skip(start as int)) == spec_lines(bytes@),
        decreases bytes@.len() - start,
    {
        let i = find_byte(bytes, start, 10);
        let ghost rest = bytes@.skip(start as int);
        let ghost before = bytes_of(res@);
        proof {
            lemma_first_pos(rest, 10);
        }
        if i == bytes.len() {
            let line = substr(s, start, i);
            res.push(line);
            proof {
                assert(line.spec_bytes() =~= rest);
                assert(bytes_of(res@) =~= before + seq![rest]);
                assert(spec_lines(bytes@.skip(i as int)) =~= Seq::empty());
                assert(bytes_of(res@) + spec_lines(bytes@.skip(i as int)) =~= before + spec_lines(
                    rest,
                ));
            }
            start = i;
        } else {
            let mut end: usize = i;
            proof {
                assert(rest[i - start] == bytes@[i as int]);
                lemma_ascii_boundaries(bytes@, i as int);
            }
            if end > start && bytes[end - 1] == 13 {
                end -= 1;
                proof {
                    lemma_ascii_boundaries(bytes@, end as int);
                }
            }
            let line = substr(s, start, end);
            res.push(line);
            proof {
                let raw = rest.take(i - start);
                assert(raw =~= bytes@.subrange(start as int, i as int));
                assert(line.spec_bytes() =~= strip_cr(raw));
                assert(bytes_of(res@) =~= before + seq![strip_cr(raw)]);
                assert(rest.skip(i - start + 1) =~= bytes@.skip(i + 1));
                assert(before + spec_lines(rest) =~= (before + seq![strip_cr(raw)]) + spec_lines(
                    bytes@.skip(i + 1),
                ));
            }
            start = i + 1;
        }
    }
    proof {
        assert(spec_lines(bytes@.skip(start as int)) =~= Seq::empty());
        assert(bytes_of(res@) + Seq::<Seq<u8>>::empty() =~= bytes_of(res@));
    }
    res
}

/// Where one valid UTF-8 text begins with another, the first has a character
/// boundary at the end of the second.
pub proof fn lemma_prefix_boundary(b: Seq<u8>, p: Seq<u8>)
    requires
        valid_utf8(b),
        valid_utf8(p),
        p.is_prefix_of(b),
    ensures
        is_char_boundary(b, p.len() as int),
    decreases p.len(),
{
    if p.len() > 0 {
        assert(p[0] == b[0]);
        let k = length_of_first_scalar(p);
        assert(k == length_of_first_scalar(b));
        assert(1 <= k <= p.len());
        let b2 = pop_first_scalar(b);
        let p2 = pop_first_scalar(p);
        assert(p2 =~= b2.subrange(0, p2.len() as int));
        lemma_prefix_boundary(b2, p2);
    }
}

/// Whether `a` and `b` hold the same bytes.
pub fn bytes_eq(a: &[u8], b: &[u8]) -> (res: bool)
    ensures
        res == (a@ == b@),
{
    if a.len() != b.len() {
        return false;
    }
    let mut i: usize = 0;
    while i < a.len()
        invariant
            a@.len() == b@.len(),
            i <= a@.len(),
            forall|j: int| 0 <= j < i ==> a@[j] == b@[j],
        decreases a@.len() - i,
    {
        if a[i] != b[i] {
            return false;
        }
        i += 1;
    }
    assert(a@ =~= b@);
    true
}

/// Whether two string slices hold the same text.
pub fn str_eq(a: &str, b: &str) -> (res: bool)
    ensures
        res == (a.spec_bytes() == b.spec_bytes()),
        res == (a@ == b@),
{
    proof {
        encode_utf8_decode_utf8(a@);
        encode_utf8_decode_utf8(b@);
    }
    bytes_eq(a.as_bytes(), b.as_bytes())
}

/// What follows `prefix` in `s`, if `s` begins with it.
pub fn strip_prefix<'a>(s: &'a str, prefix: &str) -> (res: Option<&'a str>)
    ensures
        res is Some <==> prefix.spec_bytes().is_prefix_of(s.spec_bytes()),
        res matches Some(rest) ==> rest.spec_bytes() == s.spec_bytes().skip(
            prefix.spec_bytes().len() as int,
        ),
{
    let bytes = s.as_bytes();
    let pre = prefix.as_bytes();
    let n = pre.len();
    if n > bytes.len() {
        return None;
    }
    let head = vstd::slice::slice_subrange(bytes, 0, n);
    if !bytes_eq(head, pre) {
        return None;
    }
    proof {
        encode_utf8_valid_utf8(s@);
        encode_utf8_valid_utf8(prefix@);
        lemma_prefix_boundary(bytes@, pre@);
        is_char_boundary_start_end_of_seq(bytes@);
    }
    Some(substr(s, n, bytes.len()))
}

} // verus!
