//! Verified helpers on strings: concatenation, character tests, trimming and
//! lexicographic ordering, used by the record model and the reporter.

use vstd::multiset::Multiset;
use vstd::prelude::*;
use vstd::relations::{sorted_by, total_ordering};
use vstd::seq_lib::lemma_sorted_unique;
use vstd::string::*;

verus! {

/// Concatenation of two string slices.
pub fn concat_strs(a: &str, b: &str) -> (r: String)
    ensures
        r@ == a@ + b@,
{
    let mut s = a.to_owned();
    s.append(b);
    s
}

/// True when `s` holds the character `c` somewhere.
pub open spec fn has_char(s: Seq<char>, c: char) -> bool {
    exists|i: int| 0 <= i < s.len() && s[i] == c
}

/// Scans `s` for the character `c`.
pub fn contains_char(s: &str, c: char) -> (r: bool)
    ensures
        r == has_char(s@, c),
{
    let n: usize = s.unicode_len();
    let mut i: usize = 0;
    while i < n
        invariant
            n == s@.len(),
            0 <= i <= n,
            forall|j: int| 0 <= j < i ==> s@[j] != c,
        decreases n - i,
    {
        if s.get_char(i) == c {
            return true;
        }
        i = i + 1;
    }
    false
}

/// The four ASCII whitespace characters that trimming removes.
pub open spec fn is_space_char(c: char) -> bool {
    c == ' ' || c == '\t' || c == '\n' || c == '\r'
}

/// Decides `is_space_char`.
pub fn is_space_exec(c: char) -> (r: bool)
    ensures
        r == is_space_char(c),
{
    c == ' ' || c == '\t' || c == '\n' || c == '\r'
}

/// `s` without its leading whitespace.
pub open spec fn trim_front_spec(s: Seq<char>) -> Seq<char>
    decreases s.len(),
{
    if s.len() > 0 && is_space_char(s[0]) {
        trim_front_spec(s.drop_first())
    } else {
        s
    }
}

/// `s` without its trailing whitespace.
pub open spec fn trim_back_spec(s: Seq<char>) -> Seq<char>
    decreases s.len(),
{
    if s.len() > 0 && is_space_char(s[s.len() - 1]) {
        trim_back_spec(s.drop_last())
    } else {
        s
    }
}

/// `s` without leading and trailing whitespace.
pub open spec fn trim_spec(s: Seq<char>) -> Seq<char> {
    trim_back_spec(trim_front_spec(s))
}

proof fn lemma_trim_front_skip(s: Seq<char>, i: int)
    requires
        0 <= i <= s.len(),
        forall|k: int| 0 <= k < i ==> is_space_char(s[k]),
        i == s.len() || !is_space_char(s[i]),
    ensures
        trim_front_spec(s) == s.skip(i),
    decreases i,
{
    if i == 0 {
        assert(s.skip(0) =~= s);
    } else {
        lemma_trim_front_skip(s.drop_first(), i - 1);
        assert(s.drop_first().skip(i - 1) =~= s.skip(i));
    }
}

proof fn lemma_trim_back_take(s: Seq<char>, j: int)
    requires
        0 <= j <= s.len(),
        forall|k: int| j <= k < s.len() ==> is_space_char(s[k]),
        j == 0 || !is_space_char(s[j - 1]),
    ensures
        trim_back_spec(s) == s.take(j),
    decreases s.len() - j,
{
    if j == s.len() {
        assert(s.take(j) =~= s);
    } else {
        lemma_trim_back_take(s.drop_last(), j);
        assert(s.drop_last().take(j) =~= s.take(j));
    }
}

/// Removes leading and trailing ASCII whitespace from `s`.
pub fn trim(s: &str) -> (r: String)
    ensures
        r@ == trim_spec(s@),
{
    let n: usize = s.unicode_len();
    let mut i: usize = 0;
    loop
        invariant
            n == s@.len(),
            0 <= i <= n,
            forall|k: int| 0 <= k < i ==> is_space_char(s@[k]),
        ensures
            0 <= i <= n,
            forall|k: int| 0 <= k < i ==> is_space_char(s@[k]),
            i == n || !is_space_char(s@[i as int]),
        decreases n - i,
    {
        if i >= n {
            break;
        }
        if !is_space_exec(s.get_char(i)) {
            break;
        }
        i = i + 1;
    }
    if i == n {
        proof {
            lemma_trim_front_skip(s@, i as int);
            assert(s@.skip(n as int) =~= Seq::<char>::empty());
        }
        return String::new();
    }
    let mut j: usize = n;
    loop
        invariant
            n == s@.len(),
            0 <= i < j <= n,
            !is_space_char(s@[i as int]),
            forall|k: int| j <= k < n ==> is_space_char(s@[k]),
        ensures
            0 <= i < j <= n,
            forall|k: int| j <= k < n ==> is_space_char(s@[k]),
            !is_space_char(s@[j - 1]),
        decreases j,
    {
        if !is_space_exec(s.get_char(j - 1)) {
            break;
        }
        j = j - 1;
    }
    let mid = s.substring_char(i, j);
    proof {
        lemma_trim_front_skip(s@, i as int);
        lemma_trim_back_take(s@.skip(i as int), j - i);
        assert(s@.skip(i as int).take(j - i) =~= s@.subrange(i as int, j as int));
    }
    mid.to_owned()
}

/// Lexicographic order on character sequences, by code point.
pub open spec fn lex_le(a: Seq<char>, b: Seq<char>) -> bool
    decreases a.len(),
{
    if a.len() == 0 {
        true
    } else if b.len() == 0 {
        false
    } else if a[0] == b[0] {
        lex_le(a.drop_first(), b.drop_first())
    } else {
        (a[0] as int) < (b[0] as int)
    }
}

/// `lex_le` as a relation value, for use with vstd's ordering predicates.
pub open spec fn lex_leq_fn() -> spec_fn(Seq<char>, Seq<char>) -> bool {
    |a: Seq<char>, b: Seq<char>| lex_le(a, b)
}

pub proof fn lemma_lex_refl(a: Seq<char>)
    ensures
        lex_le(a, a),
    decreases a.len(),
{
    if a.len() > 0 {
        lemma_lex_refl(a.drop_first());
    }
}

pub proof fn lemma_lex_connex(a: Seq<char>, b: Seq<char>)
    ensures
        lex_le(a, b) || lex_le(b, a),
    decreases a.len(),
{
    if a.len() > 0 && b.len() > 0 && a[0] == b[0] {
        lemma_lex_connex(a.drop_first(), b.drop_first());
    }
}

pub proof fn lemma_lex_antisym(a: Seq<char>, b: Seq<char>)
    requires
        lex_le(a, b),
        lex_le(b, a),
    ensures
        a == b,
    decreases a.len(),
{
    if a.len() == 0 {
        assert(a =~= b);
    } else {
        lemma_lex_antisym(a.drop_first(), b.drop_first());
        assert(a =~= seq![a[0]] + a.drop_first());
        assert(b =~= seq![b[0]] + b.drop_first());
    }
}

pub proof fn lemma_lex_trans(a: Seq<char>, b: Seq<char>, c: Seq<char>)
    requires
        lex_le(a, b),
        lex_le(b, c),
    ensures
        lex_le(a, c),
    decreases a.len(),
{
    if a.len() > 0 && b.len() > 0 && c.len() > 0 && a[0] == b[0] && b[0] == c[0] {
        lemma_lex_trans(a.drop_first(), b.drop_first(), c.drop_first());
    }
}

/// Lexicographic order is a total order on character sequences.
pub proof fn lemma_lex_total_ordering()
    ensures
        total_ordering(lex_leq_fn()),
{
    let leq = lex_leq_fn();
    assert forall|a: Seq<char>| #[trigger] leq(a, a) by {
        lemma_lex_refl(a);
    }
    assert forall|a: Seq<char>, b: Seq<char>| #[trigger] leq(a, b) && #[trigger] leq(b, a)
        implies a == b by {
        lemma_lex_antisym(a, b);
    }
    assert forall|a: Seq<char>, b: Seq<char>, c: Seq<char>|
        #[trigger] leq(a, b) && #[trigger] leq(b, c) implies leq(a, c) by {
        lemma_lex_trans(a, b, c);
    }
    assert forall|a: Seq<char>, b: Seq<char>| #[trigger] leq(a, b) || #[trigger] leq(b, a) by {
        lemma_lex_connex(a, b);
    }
}

proof fn lemma_lex_skip(a: Seq<char>, b: Seq<char>, i: int)
    requires
        0 <= i <= a.len(),
        i <= b.len(),
        a.subrange(0, i) == b.subrange(0, i),
    ensures
        lex_le(a, b) == lex_le(a.skip(i), b.skip(i)),
    decreases i,
{
    if i > 0 {
        assert(a[0] == a.subrange(0, i)[0]);
        assert(b[0] == b.subrange(0, i)[0]);
        assert(a.drop_first().subrange(0, i - 1) =~= b.drop_first().subrange(0, i - 1)) by {
            assert forall|k: int| 0 <= k < i - 1 implies #[trigger] a.drop_first()[k]
                == b.drop_first()[k] by {
                assert(a[k + 1] == a.subrange(0, i)[k + 1]);
                assert(b[k + 1] == b.subrange(0, i)[k + 1]);
                assert(a.drop_first()[k] == a[k + 1]);
                assert(b.drop_first()[k] == b[k + 1]);
            }
        }
        lemma_lex_skip(a.drop_first(), b.drop_first(), i - 1);
        assert(a.drop_first().skip(i - 1) =~= a.skip(i));
        assert(b.drop_first().skip(i - 1) =~= b.skip(i));
    } else {
        assert(a.skip(0) =~= a);
        assert(b.skip(0) =~= b);
    }
}

/// Decides the lexicographic order on two strings.
pub fn str_le(a: &str, b: &str) -> (r: bool)
    ensures
        r == lex_le(a@, b@),
{
    let alen: usize = a.unicode_len();
    let blen: usize = b.unicode_len();
    let mut i: usize = 0;
    loop
        invariant
            alen == a@.len(),
            blen == b@.len(),
            0 <= i <= alen,
            i <= blen,
            a@.subrange(0, i as int) == b@.subrange(0, i as int),
        decreases alen - i,
    {
        if i >= alen {
            proof {
                lemma_lex_skip(a@, b@, i as int);
            }
            return true;
        }
        if i >= blen {
            proof {
                lemma_lex_skip(a@, b@, i as int);
            }
            return false;
        }
        let ca = a.get_char(i);
        let cb = b.get_char(i);
        if ca != cb {
            proof {
                lemma_lex_skip(a@, b@, i as int);
            }
            return (ca as u32) < (cb as u32);
        }
        proof {
            assert(a@.subrange(0, i + 1) =~= a@.subrange(0, i as int).push(ca));
            assert(b@.subrange(0, i + 1) =~= b@.subrange(0, i as int).push(cb));
        }
        i = i + 1;
    }
}

/// The views of a sequence of strings.
pub open spec fn str_views(s: Seq<String>) -> Seq<Seq<char>> {
    s.map_values(|x: String| x@)
}

/// Inserts `x` into the sorted vector `out`, keeping it sorted.
fn insert_sorted(out: &mut Vec<String>, x: String)
    requires
        sorted_by(str_views(old(out)@), lex_leq_fn()),
    ensures
        sorted_by(str_views(final(out)@), lex_leq_fn()),
        str_views(final(out)@).to_multiset() == str_views(old(out)@).to_multiset().insert(x@),
{
    let n = out.len();
    let mut p: usize = 0;
    loop
        invariant
            n == out@.len(),
            0 <= p <= n,
            out@ == old(out)@,
            forall|q: int| 0 <= q < p ==> lex_le(str_views(out@)[q], x@),
        ensures
            0 <= p <= n,
            out@ == old(out)@,
            forall|q: int| 0 <= q < p ==> lex_le(str_views(out@)[q], x@),
            p == n || lex_le(x@, str_views(out@)[p as int]),
        decreases n - p,
    {
        if p >= n {
            break;
        }
        if !str_le(out[p].as_str(), x.as_str()) {
            proof {
                lemma_lex_connex(str_views(out@)[p as int], x@);
            }
            break;
        }
        p = p + 1;
    }
    let ghost pre = str_views(out@);
    let ghost px = x@;
    let ghost pp = p as int;
    proof {
        assert(sorted_by(pre, lex_leq_fn()));
        assert forall|q: int| pp <= q < pre.len() implies lex_le(px, pre[q]) by {
            assert(lex_leq_fn()(pre[pp], pre[q]) || q == pp);
            if q > pp {
                lemma_lex_trans(px, pre[pp], pre[q]);
            }
        }
    }
    out.insert(p, x);
    proof {
        let post = str_views(out@);
        assert(post =~= pre.insert(pp, px));
        assert(post =~= pre.take(pp) + seq![px] + pre.skip(pp));
        assert forall|i: int, j: int| 0 <= i < j < post.len()
            implies #[trigger] lex_leq_fn()(post[i], post[j]) by {
            if j < pp {
                assert(lex_leq_fn()(pre[i], pre[j]));
            } else if i < pp && j == pp {
                assert(lex_le(pre[i], px));
            } else if i == pp && j > pp {
                assert(lex_le(px, pre[j - 1]));
            } else if i < pp && j > pp {
                assert(lex_leq_fn()(pre[i], pre[j - 1]));
            } else {
                assert(lex_leq_fn()(pre[i - 1], pre[j - 1]));
            }
        }
        assert(pre.take(pp) + pre.skip(pp) =~= pre);
        vstd::seq_lib::lemma_multiset_commutative(pre.take(pp) + seq![px], pre.skip(pp));
        vstd::seq_lib::lemma_multiset_commutative(pre.take(pp), seq![px]);
        vstd::seq_lib::lemma_multiset_commutative(pre.take(pp), pre.skip(pp));
        assert(seq![px].to_multiset() =~= Multiset::empty().insert(px)) by {
            seq![px].to_multiset_ensures();
            assert(seq![px] =~= Seq::<Seq<char>>::empty().push(px));
            Seq::<Seq<char>>::empty().to_multiset_ensures();
        }
        assert(post.to_multiset() =~= pre.to_multiset().insert(px));
    }
}

/// Sorts a vector of strings into lexicographic order.
pub fn sort_strings(v: &Vec<String>) -> (r: Vec<String>)
    ensures
        r@.map_values(|x: String| x@) == v@.map_values(|x: String| x@).sort_by(lex_leq_fn()),
{
    let mut out: Vec<String> = Vec::new();
    let mut idx: usize = 0;
    proof {
        assert(str_views(out@).to_multiset() =~= str_views(v@.take(0)).to_multiset()) by {
            assert(str_views(out@) =~= Seq::<Seq<char>>::empty());
            assert(str_views(v@.take(0)) =~= Seq::<Seq<char>>::empty());
        }
    }
    while idx < v.len()
        invariant
            0 <= idx <= v@.len(),
            sorted_by(str_views(out@), lex_leq_fn()),
            str_views(out@).to_multiset() == str_views(v@.take(idx as int)).to_multiset(),
        decreases v@.len() - idx,
    {
        let ghost pre_take = str_views(v@.take(idx as int));
        let x = clone_string(&v[idx]);
        let ghost px = x@;
        insert_sorted(&mut out, x);
        proof {
            let next_take = str_views(v@.take(idx + 1));
            assert(next_take =~= pre_take.push(px));
            pre_take.to_multiset_ensures();
            assert(next_take.to_multiset() =~= pre_take.to_multiset().insert(px));
        }
        idx = idx + 1;
    }
    proof {
        assert(v@.take(v@.len() as int) =~= v@);
        let views = str_views(v@);
        lemma_lex_total_ordering();
        views.lemma_sort_by_ensures(lex_leq_fn());
        lemma_sorted_unique(str_views(out@), views.sort_by(lex_leq_fn()), lex_leq_fn());
    }
    out
}

/// Copies a string.
pub fn clone_string(s: &String) -> (r: String)
    ensures
        r@ == s@,
{
    s.clone()
}

} // verus!
