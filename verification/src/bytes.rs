//! Byte-level line handling: trailing-newline stripping, byte equality, and
//! splitting a line into fields on a delimiter.

use vstd::prelude::*;
use vstd::slice::slice_subrange;
use vstd::slice::slice_to_vec;

verus! {

pub const LF: u8 = 10;

pub const CR: u8 = 13;

pub const TAB: u8 = 9;

/// A line with its terminator removed: a trailing line feed goes, and a
/// carriage return just before it goes with it.
pub open spec fn spec_strip_newline(s: Seq<u8>) -> Seq<u8> {
    if s.len() >= 2 && s[s.len() - 1] == LF && s[s.len() - 2] == CR {
        s.take(s.len() - 2)
    } else if s.len() >= 1 && s[s.len() - 1] == LF {
        s.take(s.len() - 1)
    } else {
        s
    }
}

/// Removes a trailing line feed, and a carriage return preceding it, in place.
pub fn strip_newline(line: &mut Vec<u8>)
    ensures
        final(line)@ == spec_strip_newline(old(line)@),
{
    if line.len() >= 1 && line[line.len() - 1] == LF {
        line.pop();
        if line.len() >= 1 && line[line.len() - 1] == CR {
            line.pop();
            proof {
                assert(final(line)@ =~= spec_strip_newline(old(line)@));
            }
        } else {
            proof {
                assert(final(line)@ =~= spec_strip_newline(old(line)@));
            }
        }
    }
}

/// Whether two byte strings hold the same bytes.
pub fn bytes_eq(a: &[u8], b: &[u8]) -> (r: bool)
    ensures
        r <==> a@ == b@,
{
    if a.len() != b.len() {
        return false;
    }
    let mut i: usize = 0;
    while i < a.len()
        invariant
            i <= a@.len(),
            a@.len() == b@.len(),
            forall|k: int| 0 <= k < i ==> a@[k] == b@[k],
        decreases a@.len() - i,
    {
        if a[i] != b[i] {
            return false;
        }
        i = i + 1;
    }
    proof {
        assert(a@ =~= b@);
    }
    true
}

/// The fields of `s` split on the delimiter `d`: an empty input is one empty
/// field, and each occurrence of `d` ends a field.
pub open spec fn spec_split(s: Seq<u8>, d: u8) -> Seq<Seq<u8>>
    decreases s.len(),
{
    if s.len() == 0 {
        seq![Seq::<u8>::empty()]
    } else {
        let r = spec_split(s.subrange(1, s.len() as int), d);
        if s[0] == d {
            seq![Seq::<u8>::empty()].add(r)
        } else {
            seq![seq![s[0]].add(r[0])].add(r.subrange(1, r.len() as int))
        }
    }
}

pub proof fn lemma_split_nonempty(s: Seq<u8>, d: u8)
    ensures
        spec_split(s, d).len() >= 1,
    decreases s.len(),
{
    if s.len() != 0 {
        lemma_split_nonempty(s.subrange(1, s.len() as int), d);
    }
}

/// Splitting at the first delimiter: if no delimiter stands before position
/// `i`, the split is the prefix up to `i` followed by the split of the rest.
pub proof fn lemma_split_at_first_delim(s: Seq<u8>, d: u8, i: int)
    requires
        0 <= i <= s.len(),
        forall|j: int| 0 <= j < i ==> s[j] != d,
    ensures
        i == s.len() ==> spec_split(s, d) == seq![s],
        i < s.len() && s[i] == d ==> spec_split(s, d) == seq![s.subrange(0, i)].add(
            spec_split(s.subrange(i + 1, s.len() as int), d),
        ),
    decreases i,
{
    if i == 0 {
        if i == s.len() {
            assert(s =~= Seq::<u8>::empty());
            assert(spec_split(s, d) =~= seq![s]);
        } else if s[0] == d {
            assert(s.subrange(0, 0) =~= Seq::<u8>::empty());
            assert(spec_split(s, d) =~= seq![s.subrange(0, 0)].add(
                spec_split(s.subrange(1, s.len() as int), d),
            ));
        }
    } else {
        let t = s.subrange(1, s.len() as int);
        lemma_split_at_first_delim(t, d, i - 1);
        lemma_split_nonempty(t, d);
        let r = spec_split(t, d);
        if i == s.len() {
            assert(r == seq![t]);
            assert(seq![s[0]].add(r[0]) =~= s);
            assert(spec_split(s, d) =~= seq![s]);
        } else if s[i] == d {
            assert(t[i - 1] == d);
            assert(r == seq![t.subrange(0, i - 1)].add(
                spec_split(t.subrange(i, t.len() as int), d),
            ));
            assert(seq![s[0]].add(r[0]) =~= s.subrange(0, i));
            assert(t.subrange(i, t.len() as int) =~= s.subrange(i + 1, s.len() as int));
            assert(spec_split(s, d) =~= seq![s.subrange(0, i)].add(
                spec_split(s.subrange(i + 1, s.len() as int), d),
            ));
        }
    }
}

/// The views of a vector of byte fields.
pub open spec fn views(fields: Seq<Vec<u8>>) -> Seq<Seq<u8>> {
    fields.map_values(|f: Vec<u8>| f@)
}

/// Splits a line into its fields on the delimiter `d`.
pub fn split_fields(line: &[u8], d: u8) -> (fields: Vec<Vec<u8>>)
    ensures
        views(fields@) == spec_split(line@, d),
        fields@.len() >= 1,
{
    let ghost whole = line@;
    let mut fields: Vec<Vec<u8>> = Vec::new();
    let mut pos: usize = 0;
    proof {
        assert(whole.subrange(0, whole.len() as int) =~= whole);
        assert(views(fields@) =~= Seq::<Seq<u8>>::empty());
        assert(views(fields@).add(spec_split(whole, d)) =~= spec_split(whole, d));
    }
    loop
        invariant_except_break
            pos <= line@.len(),
            spec_split(whole, d) == views(fields@).add(
                spec_split(whole.subrange(pos as int, whole.len() as int), d),
            ),
        invariant
            whole == line@,
        ensures
            views(fields@) == spec_split(whole, d),
            fields@.len() >= 1,
        decreases line@.len() - pos,
    {
        proof {
            assert(views(fields@).add(
                spec_split(whole.subrange(pos as int, whole.len() as int), d),
            ) == spec_split(whole, d));
        }
        let ghost rem = whole.subrange(pos as int, whole.len() as int);
        let mut j: usize = pos;
        while j < line.len() && line[j] != d
            invariant
                pos <= j <= line@.len(),
                whole == line@,
                forall|k: int| pos <= k < j ==> whole[k] != d,
            decreases line@.len() - j,
        {
            j = j + 1;
        }
        let f = slice_to_vec(slice_subrange(line, pos, j));
        proof {
            assert(forall|k: int| 0 <= k < j - pos ==> rem[k] != d);
            lemma_split_at_first_delim(rem, d, j - pos);
            lemma_split_nonempty(rem, d);
        }
        let ghost before = fields@;
        fields.push(f);
        proof {
            assert(views(fields@) =~= views(before).push(f@));
        }
        if j == line.len() {
            proof {
                assert(f@ =~= rem);
                assert(spec_split(rem, d) == seq![rem]);
                assert(views(fields@) =~= views(before).add(spec_split(rem, d)));
                assert(views(fields@) == spec_split(whole, d));
            }
            break;
        }
        proof {
            assert(rem[j - pos] == d);
            assert(f@ =~= rem.subrange(0, j - pos));
            assert(rem.subrange(j - pos + 1, rem.len() as int) =~= whole.subrange(
                j + 1,
                whole.len() as int,
            ));
            assert(spec_split(rem, d) == seq![f@].add(
                spec_split(whole.subrange(j + 1, whole.len() as int), d),
            ));
            assert(views(fields@).add(
                spec_split(whole.subrange(j + 1, whole.len() as int), d),
            ) =~= spec_split(whole, d));
        }
        pos = j + 1;
    }
    proof {
        lemma_split_nonempty(whole, d);
        assert(fields@.len() == views(fields@).len());
    }
    fields
}

} // verus!
