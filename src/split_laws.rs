//! Splitting a text joined with `", "` gives back its fields.
use crate::text::{no_comma, pieces, sep_at, split_on};
use vstd::prelude::*;

verus! {

/// The field separator of a record.
pub open spec fn comma_sep() -> Seq<char> {
    seq![',', ' ']
}

/// `f` holds no `", "`.
pub open spec fn no_sep(f: Seq<char>) -> bool {
    forall|k: int| 0 <= k < f.len() - 1 ==> !(#[trigger] f[k] == ',' && f[k + 1] == ' ')
}

/// The fields written one after another with `", "` between them.
pub open spec fn join_fields(fs: Seq<Seq<char>>) -> Seq<char>
    decreases fs.len(),
{
    if fs.len() <= 1 {
        if fs.len() == 1 {
            fs[0]
        } else {
            Seq::empty()
        }
    } else {
        fs[0] + comma_sep() + join_fields(fs.drop_first())
    }
}

pub proof fn lemma_no_comma_no_sep(f: Seq<char>)
    requires
        no_comma(f),
    ensures
        no_sep(f),
{
    assert forall|k: int| 0 <= k < f.len() - 1 implies !(#[trigger] f[k] == ',' && f[k + 1]
        == ' ') by {
        assert(f[k] != ',');
    }
}

pub proof fn lemma_labelled_no_sep(label: Seq<char>, value: Seq<char>)
    requires
        no_comma(label),
        no_sep(value),
    ensures
        no_sep(label + value),
{
    let f = label + value;
    assert forall|k: int| 0 <= k < f.len() - 1 implies !(#[trigger] f[k] == ',' && f[k + 1]
        == ' ') by {
        if k < label.len() {
            assert(f[k] == label[k]);
        } else {
            assert(f[k] == value[k - label.len()]);
            assert(f[k + 1] == value[k + 1 - label.len()]);
        }
    }
}

proof fn lemma_sep_at_chars(s: Seq<char>, k: int)
    requires
        sep_at(s, comma_sep(), k),
    ensures
        s[k] == ',' && s[k + 1] == ' ',
{
    assert(s.subrange(k, k + 2)[0] == s[k]);
    assert(s.subrange(k, k + 2)[1] == s[k + 1]);
}

/// Scanning past positions where the separator does not occur changes nothing.
pub proof fn lemma_pieces_skip(s: Seq<char>, sep: Seq<char>, start: int, i: int, j: int)
    requires
        sep.len() > 0,
        0 <= i <= j,
        forall|k: int| i <= k < j ==> !sep_at(s, sep, k),
    ensures
        pieces(s, sep, start, i) == pieces(s, sep, start, j),
    decreases j - i,
{
    if i < j {
        if i + sep.len() > s.len() {
            assert(j + sep.len() > s.len());
        } else {
            assert(!sep_at(s, sep, i));
            lemma_pieces_skip(s, sep, start, i + 1, j);
        }
    }
}

/// Splitting `s` from position `a`, where `s[a..]` is the fields joined, gives the fields.
proof fn lemma_pieces_of_join(s: Seq<char>, a: int, fs: Seq<Seq<char>>)
    requires
        0 <= a <= s.len(),
        fs.len() >= 1,
        s.subrange(a, s.len() as int) == join_fields(fs),
        forall|i: int| 0 <= i < fs.len() ==> no_sep(#[trigger] fs[i]),
    ensures
        pieces(s, comma_sep(), a, a) == fs,
    decreases fs.len(),
{
    let f = fs[0];
    assert(no_sep(fs[0]));
    if fs.len() == 1 {
        let j = if s.len() >= a + 1 {
            s.len() - 1
        } else {
            a
        };
        assert forall|k: int| a <= k < j implies !sep_at(s, comma_sep(), k) by {
            if sep_at(s, comma_sep(), k) {
                lemma_sep_at_chars(s, k);
                assert(s[k] == f[k - a]);
                assert(s[k + 1] == f[k + 1 - a]);
            }
        }
        lemma_pieces_skip(s, comma_sep(), a, a, j);
        assert(s.subrange(a, s.len() as int) == f);
        assert(pieces(s, comma_sep(), a, a) =~= seq![f]);
        assert(fs =~= seq![f]);
    } else {
        let rest = fs.drop_first();
        let j = a + f.len();
        let tail = s.subrange(a, s.len() as int);
        assert(tail == f + comma_sep() + join_fields(rest));
        assert forall|k: int| a <= k < j implies !sep_at(s, comma_sep(), k) by {
            if sep_at(s, comma_sep(), k) {
                lemma_sep_at_chars(s, k);
                assert(s[k] == tail[k - a]);
                assert(s[k + 1] == tail[k + 1 - a]);
                if k + 1 < j {
                    assert(tail[k - a] == f[k - a]);
                    assert(tail[k + 1 - a] == f[k + 1 - a]);
                } else {
                    assert(tail[k + 1 - a] == comma_sep()[0]);
                }
            }
        }
        lemma_pieces_skip(s, comma_sep(), a, a, j);
        assert(s.subrange(j, j + 2) =~= comma_sep()) by {
            assert forall|t: int| 0 <= t < 2 implies s.subrange(j, j + 2)[t] == comma_sep()[t] by {
                assert(s[j + t] == tail[f.len() + t]);
            }
        }
        assert(sep_at(s, comma_sep(), j));
        assert(s.subrange(a, j) =~= f) by {
            assert forall|t: int| 0 <= t < f.len() implies s.subrange(a, j)[t] == f[t] by {
                assert(s[a + t] == tail[t]);
            }
        }
        assert(s.subrange(j + 2, s.len() as int) =~= join_fields(rest)) by {
            assert(tail.subrange(f.len() + 2int, tail.len() as int) =~= join_fields(rest));
        }
        assert forall|i: int| 0 <= i < rest.len() implies no_sep(#[trigger] rest[i]) by {
            assert(rest[i] == fs[i + 1]);
        }
        lemma_pieces_of_join(s, j + 2, rest);
        assert(fs =~= seq![f] + rest);
    }
}

/// Splitting joined fields on `", "` gives back the fields, when none holds `", "`.
pub proof fn lemma_split_join(fs: Seq<Seq<char>>)
    requires
        fs.len() >= 1,
        forall|i: int| 0 <= i < fs.len() ==> no_sep(#[trigger] fs[i]),
    ensures
        split_on(join_fields(fs), comma_sep()) == fs,
{
    let s = join_fields(fs);
    assert(s.subrange(0, s.len() as int) =~= s);
    lemma_pieces_of_join(s, 0, fs);
}

} // verus!
