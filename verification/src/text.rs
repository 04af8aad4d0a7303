//! Character-sequence utilities: case folding, prefix and suffix tests,
//! lexicographic ordering of names, sorting, and decimal rendering.

use vstd::prelude::*;
use vstd::relations::{antisymmetric, reflexive, sorted_by, strongly_connected, total_ordering, transitive};
use vstd::seq_lib::lemma_sorted_unique;
use vstd::string::StrSliceExecFns;
use vstd::string::StringExecFns;

verus! {

/// The lower-cased form of a sequence of characters, as Unicode case mapping
/// defines it. The result depends on the characters alone.
pub uninterp spec fn lower_of(s: Seq<char>) -> Seq<char>;

/// Relies on `str::to_lowercase`: returns the lower-cased form of `s`,
/// a function of the characters of `s` alone.
#[verifier::external_body]
pub(crate) fn to_lowercase(s: &str) -> (r: String)
    ensures
        r@ == lower_of(s@),
{
    s.to_lowercase()
}

/// True when `b` is a prefix of `a`.
pub open spec fn seq_starts_with(a: Seq<char>, b: Seq<char>) -> bool {
    b.len() <= a.len() && a.subrange(0, b.len() as int) == b
}

/// True when `b` is a suffix of `a`.
pub open spec fn seq_ends_with(a: Seq<char>, b: Seq<char>) -> bool {
    b.len() <= a.len() && a.subrange(a.len() - b.len(), a.len() as int) == b
}

/// Whether `b` is a prefix of `a`, comparing character by character.
pub fn str_starts_with(a: &str, b: &str) -> (r: bool)
    ensures
        r == seq_starts_with(a@, b@),
{
    let alen: usize = a.unicode_len();
    let blen: usize = b.unicode_len();
    if blen > alen {
        return false;
    }
    let mut i: usize = 0;
    while i < blen
        invariant
            i <= blen <= alen,
            alen == a@.len(),
            blen == b@.len(),
            forall|j: int| 0 <= j < i ==> a@[j] == b@[j],
        decreases blen - i,
    {
        if a.get_char(i) != b.get_char(i) {
            proof {
                assert(a@.subrange(0, blen as int)[i as int] == a@[i as int]);
            }
            return false;
        }
        i = i + 1;
    }
    proof {
        assert(a@.subrange(0, blen as int) =~= b@);
    }
    true
}

/// Whether `b` is a suffix of `a`, comparing character by character.
pub fn str_ends_with(a: &str, b: &str) -> (r: bool)
    ensures
        r == seq_ends_with(a@, b@),
{
    let alen: usize = a.unicode_len();
    let blen: usize = b.unicode_len();
    if blen > alen {
        return false;
    }
    let off: usize = alen - blen;
    let mut i: usize = 0;
    while i < blen
        invariant
            i <= blen <= alen,
            off == alen - blen,
            alen == a@.len(),
            blen == b@.len(),
            forall|j: int| 0 <= j < i ==> a@[off + j] == b@[j],
        decreases blen - i,
    {
        if a.get_char(off + i) != b.get_char(i) {
            proof {
                assert(a@.subrange(off as int, alen as int)[i as int] == a@[off + i]);
            }
            return false;
        }
        i = i + 1;
    }
    proof {
        assert(a@.subrange(off as int, alen as int) =~= b@);
    }
    true
}

/// Lexicographic order on character sequences, by code point; a proper
/// prefix comes before the longer sequence.
pub open spec fn lex_leq(a: Seq<char>, b: Seq<char>) -> bool
    decreases a.len(),
{
    if a.len() == 0 {
        true
    } else if b.len() == 0 {
        false
    } else if a[0] != b[0] {
        a[0] < b[0]
    } else {
        lex_leq(a.drop_first(), b.drop_first())
    }
}

/// The lexicographic order as a relation value, for use with vstd's
/// ordering and sorting lemmas.
pub open spec fn lex_leq_f() -> spec_fn(Seq<char>, Seq<char>) -> bool {
    |a: Seq<char>, b: Seq<char>| lex_leq(a, b)
}

proof fn lemma_lex_refl(a: Seq<char>)
    ensures
        lex_leq(a, a),
    decreases a.len(),
{
    if a.len() > 0 {
        lemma_lex_refl(a.drop_first());
    }
}

proof fn lemma_lex_connected(a: Seq<char>, b: Seq<char>)
    ensures
        lex_leq(a, b) || lex_leq(b, a),
    decreases a.len(),
{
    if a.len() > 0 && b.len() > 0 && a[0] == b[0] {
        lemma_lex_connected(a.drop_first(), b.drop_first());
    }
}

proof fn lemma_lex_antisym(a: Seq<char>, b: Seq<char>)
    requires
        lex_leq(a, b),
        lex_leq(b, a),
    ensures
        a == b,
    decreases a.len(),
{
    if a.len() == 0 {
        assert(a =~= b);
    } else if a[0] == b[0] {
        assert(b.len() > 0);
        assert(lex_leq(a.drop_first(), b.drop_first()));
        assert(lex_leq(b.drop_first(), a.drop_first()));
        lemma_lex_antisym(a.drop_first(), b.drop_first());
        assert(a.drop_first().len() == b.drop_first().len());
        assert(a.len() == b.len());
        assert forall|i: int| 0 <= i < a.len() implies a[i] == b[i] by {
            if i > 0 {
                assert(a.drop_first()[i - 1] == a[i]);
                assert(b.drop_first()[i - 1] == b[i]);
            }
        }
        assert(a =~= b);
    } else {
        assert(a[0] < b[0]);
        assert(b[0] < a[0]);
        assert(false);
    }
}

proof fn lemma_lex_trans(a: Seq<char>, b: Seq<char>, c: Seq<char>)
    requires
        lex_leq(a, b),
        lex_leq(b, c),
    ensures
        lex_leq(a, c),
    decreases a.len(),
{
    if a.len() > 0 && b.len() > 0 && c.len() > 0 && a[0] == b[0] && b[0] == c[0] {
        lemma_lex_trans(a.drop_first(), b.drop_first(), c.drop_first());
    }
}

/// The lexicographic order is a total order on character sequences.
pub proof fn lemma_lex_total_ordering()
    ensures
        total_ordering(lex_leq_f()),
{
    let f = lex_leq_f();
    assert(reflexive(f)) by {
        assert forall|a: Seq<char>| #[trigger] f(a, a) by {
            lemma_lex_refl(a);
        }
    }
    assert(antisymmetric(f)) by {
        assert forall|a: Seq<char>, b: Seq<char>| #[trigger] f(a, b) && #[trigger] f(b, a) implies a == b by {
            lemma_lex_antisym(a, b);
        }
    }
    assert(transitive(f)) by {
        assert forall|a: Seq<char>, b: Seq<char>, c: Seq<char>| #[trigger] f(a, b) && #[trigger] f(b, c) implies f(a, c) by {
            lemma_lex_trans(a, b, c);
        }
    }
    assert(strongly_connected(f)) by {
        assert forall|a: Seq<char>, b: Seq<char>| #[trigger] f(a, b) || #[trigger] f(b, a) by {
            lemma_lex_connected(a, b);
        }
    }
}

proof fn lemma_lex_skip(a: Seq<char>, b: Seq<char>, i: int)
    requires
        0 <= i < a.len(),
        i < b.len(),
        a[i] == b[i],
    ensures
        lex_leq(a.skip(i), b.skip(i)) == lex_leq(a.skip(i + 1), b.skip(i + 1)),
{
    assert(a.skip(i).drop_first() =~= a.skip(i + 1));
    assert(b.skip(i).drop_first() =~= b.skip(i + 1));
    assert(a.skip(i)[0] == a[i]);
    assert(b.skip(i)[0] == b[i]);
}

/// Whether `a` comes at or before `b` in lexicographic order.
pub fn lex_leq_exec(a: &str, b: &str) -> (r: bool)
    ensures
        r == lex_leq(a@, b@),
{
    let alen: usize = a.unicode_len();
    let blen: usize = b.unicode_len();
    proof {
        assert(a@.skip(0) =~= a@);
        assert(b@.skip(0) =~= b@);
    }
    let mut i: usize = 0;
    loop
        invariant
            i <= alen,
            i <= blen,
            alen == a@.len(),
            blen == b@.len(),
            lex_leq(a@, b@) == lex_leq(a@.skip(i as int), b@.skip(i as int)),
        decreases alen - i,
    {
        if i >= alen {
            proof {
                assert(a@.skip(i as int) =~= Seq::<char>::empty());
            }
            return true;
        }
        if i >= blen {
            proof {
                assert(b@.skip(i as int) =~= Seq::<char>::empty());
                assert(a@.skip(i as int).len() > 0);
            }
            return false;
        }
        let ca = a.get_char(i);
        let cb = b.get_char(i);
        if ca != cb {
            proof {
                assert(a@.skip(i as int)[0] == a@[i as int]);
                assert(b@.skip(i as int)[0] == b@[i as int]);
            }
            return ca < cb;
        }
        proof {
            lemma_lex_skip(a@, b@, i as int);
        }
        i = i + 1;
    }
}

/// The character views of a sequence of strings.
pub open spec fn char_views(v: Seq<String>) -> Seq<Seq<char>> {
    v.map_values(|s: String| s@)
}

/// The place in the sorted list `out` at which `x` belongs: the first
/// index whose entry is at or above `x` in lexicographic order.
fn insert_position(x: &String, out: &Vec<String>) -> (j: usize)
    ensures
        j <= out@.len(),
        forall|k: int| 0 <= k < j ==> !lex_leq(x@, #[trigger] char_views(out@)[k]),
        j < out@.len() ==> lex_leq(x@, char_views(out@)[j as int]),
{
    let mut j: usize = 0;
    while j < out.len()
        invariant
            j <= out@.len(),
            forall|k: int| 0 <= k < j ==> !lex_leq(x@, #[trigger] char_views(out@)[k]),
        decreases out@.len() - j,
    {
        let below = lex_leq_exec(x.as_str(), out[j].as_str());
        proof {
            assert(char_views(out@)[j as int] == out@[j as int]@);
        }
        if below {
            return j;
        }
        j = j + 1;
    }
    j
}

/// Inserting `x` at the first position whose entry is at or above it
/// keeps a sequence sorted.
pub proof fn lemma_sorted_insert(names: Seq<Seq<char>>, x: Seq<char>, j: int)
    requires
        total_ordering(lex_leq_f()),
        sorted_by(names, lex_leq_f()),
        0 <= j <= names.len(),
        forall|k: int| 0 <= k < j ==> !lex_leq(x, #[trigger] names[k]),
        j < names.len() ==> lex_leq(x, names[j]),
    ensures
        sorted_by(names.insert(j, x), lex_leq_f()),
{
    let nv = names.insert(j, x);
    let f = lex_leq_f();
    assert forall|p: int, q: int| 0 <= p < q < nv.len() implies #[trigger] f(nv[p], nv[q]) by {
        if q < j {
            assert(nv[p] == names[p] && nv[q] == names[q]);
            assert(f(names[p], names[q]));
        } else if p > j {
            assert(nv[p] == names[p - 1] && nv[q] == names[q - 1]);
            assert(f(names[p - 1], names[q - 1]));
        } else if p == j {
            // nv[p] is x and q lies past the insertion point
            assert(nv[p] == x);
            assert(nv[q] == names[q - 1]);
            assert(j < names.len());
            assert(f(x, names[j]));
            if q - 1 > j {
                assert(f(names[j], names[q - 1]));
            }
        } else if q == j {
            // entries before the insertion point are not above x
            assert(nv[p] == names[p]);
            assert(nv[q] == x);
            assert(!f(x, names[p]));
            assert(f(names[p], x) || f(x, names[p]));
        } else {
            // p < j < q: both entries come from the old list
            assert(nv[p] == names[p]);
            assert(nv[q] == names[q - 1]);
            assert(f(names[p], names[q - 1]));
        }
    }
}

/// Sorts the given strings into lexicographic order. The result is the
/// canonical sorted arrangement of the input, so any two inputs with the
/// same multiset of strings sort to the same sequence.
pub fn sort_strings(v: &Vec<String>) -> (r: Vec<String>)
    ensures
        char_views(r@) == char_views(v@).sort_by(lex_leq_f()),
{
    let mut out: Vec<String> = Vec::new();
    let mut i: usize = 0;
    proof {
        lemma_lex_total_ordering();
        assert(char_views(out@) =~= char_views(v@.subrange(0, 0)));
    }
    while i < v.len()
        invariant
            i <= v@.len(),
            sorted_by(char_views(out@), lex_leq_f()),
            char_views(out@).to_multiset() == char_views(v@.subrange(0, i as int)).to_multiset(),
            total_ordering(lex_leq_f()),
        decreases v@.len() - i,
    {
        broadcast use vstd::seq_lib::group_to_multiset_ensures;

        let x: String = v[i].clone();
        let j: usize = insert_position(&x, &out);
        let ghost old_views = char_views(out@);
        out.insert(j, x);
        proof {
            assert(char_views(out@) =~= old_views.insert(j as int, x@));
            lemma_sorted_insert(old_views, x@, j as int);
            assert(char_views(v@.subrange(0, i + 1)) =~= char_views(v@.subrange(0, i as int)).push(
                v@[i as int]@,
            ));
        }
        i = i + 1;
    }
    proof {
        assert(v@.subrange(0, v@.len() as int) =~= v@);
        char_views(v@).lemma_sort_by_ensures(lex_leq_f());
        lemma_sorted_unique(char_views(out@), char_views(v@).sort_by(lex_leq_f()), lex_leq_f());
        assert(char_views(out@) =~= char_views(v@).sort_by(lex_leq_f()));
    }
    out
}

/// The decimal digit character for `d`.
pub open spec fn dec_char(d: nat) -> char {
    if d == 0 {
        '0'
    } else if d == 1 {
        '1'
    } else if d == 2 {
        '2'
    } else if d == 3 {
        '3'
    } else if d == 4 {
        '4'
    } else if d == 5 {
        '5'
    } else if d == 6 {
        '6'
    } else if d == 7 {
        '7'
    } else if d == 8 {
        '8'
    } else {
        '9'
    }
}

/// The decimal rendering of `n`, most significant digit first, with no
/// leading zeros (a single `'0'` for zero).
pub open spec fn dec_of(n: nat) -> Seq<char>
    decreases n,
{
    if n < 10 {
        seq![dec_char(n)]
    } else {
        dec_of(n / 10).push(dec_char(n % 10))
    }
}

/// Appends the decimal rendering of `n` to `out`.
pub fn push_dec(n: u64, out: &mut String)
    ensures
        final(out)@ == old(out)@ + dec_of(n as nat),
    decreases n,
{
    if n >= 10 {
        push_dec(n / 10, out);
    }
    let d: u64 = n % 10;
    proof {
        reveal_strlit("0");
        reveal_strlit("1");
        reveal_strlit("2");
        reveal_strlit("3");
        reveal_strlit("4");
        reveal_strlit("5");
        reveal_strlit("6");
        reveal_strlit("7");
        reveal_strlit("8");
        reveal_strlit("9");
    }
    match d {
        0 => out.append("0"),
        1 => out.append("1"),
        2 => out.append("2"),
        3 => out.append("3"),
        4 => out.append("4"),
        5 => out.append("5"),
        6 => out.append("6"),
        7 => out.append("7"),
        8 => out.append("8"),
        _ => out.append("9"),
    }
    proof {
        assert("0"@ =~= seq![dec_char(0)]);
        assert("1"@ =~= seq![dec_char(1)]);
        assert("2"@ =~= seq![dec_char(2)]);
        assert("3"@ =~= seq![dec_char(3)]);
        assert("4"@ =~= seq![dec_char(4)]);
        assert("5"@ =~= seq![dec_char(5)]);
        assert("6"@ =~= seq![dec_char(6)]);
        assert("7"@ =~= seq![dec_char(7)]);
        assert("8"@ =~= seq![dec_char(8)]);
        assert("9"@ =~= seq![dec_char(9)]);
        if n < 10 {
            assert(dec_of(n as nat) =~= seq![dec_char(n as nat)]);
        } else {
            assert(dec_of(n as nat) =~= dec_of((n / 10) as nat).push(dec_char((n % 10) as nat)));
            assert(old(out)@ + dec_of(n as nat) =~= (old(out)@ + dec_of((n / 10) as nat)) + seq![
                dec_char((n % 10) as nat),
            ]);
        }
    }
}

} // verus!
