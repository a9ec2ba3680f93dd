use vstd::prelude::*;
use vstd::string::*;

verus! {

/// Strict lexicographic order on character sequences, by Unicode code point.
/// This is the order the catalog and the VM listings are kept in.
pub open spec fn lex_lt(a: Seq<char>, b: Seq<char>) -> bool
    decreases a.len(),
{
    if b.len() == 0 {
        false
    } else if a.len() == 0 {
        true
    } else if a[0] != b[0] {
        (a[0] as u32) < (b[0] as u32)
    } else {
        lex_lt(a.skip(1), b.skip(1))
    }
}

pub proof fn lemma_lex_lt_irrefl(a: Seq<char>)
    ensures
        !lex_lt(a, a),
    decreases a.len(),
{
    if a.len() > 0 {
        lemma_lex_lt_irrefl(a.skip(1));
    }
}

pub proof fn lemma_lex_lt_trans(a: Seq<char>, b: Seq<char>, c: Seq<char>)
    requires
        lex_lt(a, b),
        lex_lt(b, c),
    ensures
        lex_lt(a, c),
    decreases a.len(),
{
    if a.len() == 0 {
    } else if a[0] != b[0] || b[0] != c[0] {
    } else {
        lemma_lex_lt_trans(a.skip(1), b.skip(1), c.skip(1));
    }
}

/// Two sequences neither of which precedes the other are equal: the order is total.
pub proof fn lemma_lex_lt_connected(a: Seq<char>, b: Seq<char>)
    requires
        !lex_lt(a, b),
        !lex_lt(b, a),
    ensures
        a == b,
    decreases a.len(),
{
    if a.len() == 0 {
        assert(b.len() == 0);
        assert(a =~= b);
    } else {
        assert(b.len() > 0);
        if a[0] != b[0] {
            vstd::utf8::char_u32_cast(a[0], a[0] as u32);
            vstd::utf8::char_u32_cast(b[0], b[0] as u32);
            assert((a[0] as u32) < (b[0] as u32) || (b[0] as u32) < (a[0] as u32));
            assert(false);
        }
        lemma_lex_lt_connected(a.skip(1), b.skip(1));
        assert(a =~= b.skip(1).insert(0, b[0]));
        assert(b =~= b.skip(1).insert(0, b[0]));
    }
}

/// Character-wise equality test for string slices.
pub fn str_eq(a: &str, b: &str) -> (r: bool)
    ensures
        r == (a@ == b@),
{
    let alen = a.unicode_len();
    let blen = b.unicode_len();
    if alen != blen {
        return false;
    }
    let mut i: usize = 0;
    while i < alen
        invariant
            i <= alen,
            alen == a@.len(),
            alen == b@.len(),
            forall|k: int| 0 <= k < i ==> a@[k] == b@[k],
        decreases alen - i,
    {
        if a.get_char(i) != b.get_char(i) {
            assert(a@ != b@);
            return false;
        }
        i += 1;
    }
    proof {
        assert(a@ =~= b@);
    }
    true
}

/// Decides `lex_lt` on two string slices.
pub fn str_lt(a: &str, b: &str) -> (r: bool)
    ensures
        r == lex_lt(a@, b@),
{
    let alen = a.unicode_len();
    let blen = b.unicode_len();
    let mut i: usize = 0;
    proof {
        assert(a@.skip(0) =~= a@);
        assert(b@.skip(0) =~= b@);
    }
    loop
        invariant
            i <= alen,
            i <= blen,
            alen == a@.len(),
            blen == b@.len(),
            lex_lt(a@, b@) == lex_lt(a@.skip(i as int), b@.skip(i as int)),
        decreases alen - i,
    {
        if i >= blen {
            assert(b@.skip(i as int).len() == 0);
            return false;
        }
        if i >= alen {
            assert(a@.skip(i as int).len() == 0);
            return true;
        }
        let ca = a.get_char(i);
        let cb = b.get_char(i);
        proof {
            assert(a@.skip(i as int)[0] == a@[i as int]);
            assert(b@.skip(i as int)[0] == b@[i as int]);
        }
        if ca != cb {
            return (ca as u32) < (cb as u32);
        }
        proof {
            assert(a@.skip(i as int).skip(1) =~= a@.skip(i as int + 1));
            assert(b@.skip(i as int).skip(1) =~= b@.skip(i as int + 1));
        }
        i += 1;
    }
}

/// Every element of a filtered sequence is an element of the sequence.
pub proof fn lemma_filter_members<A>(s: Seq<A>, pred: spec_fn(A) -> bool)
    ensures
        forall|i: int|
            0 <= i < s.filter(pred).len() ==> s.contains(#[trigger] s.filter(pred)[i]),
    decreases s.len(),
{
    reveal(Seq::filter);
    if s.len() > 0 {
        let dl = s.drop_last();
        lemma_filter_members(dl, pred);
        let out = s.filter(pred);
        assert forall|i: int| 0 <= i < out.len() implies s.contains(out[i]) by {
            if i < dl.filter(pred).len() {
                assert(out[i] == dl.filter(pred)[i]);
                assert(dl.contains(dl.filter(pred)[i]));
                let j = choose|j: int| 0 <= j < dl.len() && dl[j] == dl.filter(pred)[i];
                assert(s[j] == out[i]);
            } else {
                assert(out[i] == s.last());
                assert(s[s.len() - 1] == out[i]);
            }
        }
    }
}

/// Filtering keeps a sequence sorted under any key.
pub proof fn lemma_sorted_filter<A>(s: Seq<A>, pred: spec_fn(A) -> bool, key: spec_fn(A) -> Seq<char>)
    requires
        forall|i: int, j: int| 0 <= i < j < s.len() ==> lex_lt(key(s[i]), key(s[j])),
    ensures
        forall|i: int, j: int|
            0 <= i < j < s.filter(pred).len() ==> lex_lt(
                key(s.filter(pred)[i]),
                key(s.filter(pred)[j]),
            ),
    decreases s.len(),
{
    reveal(Seq::filter);
    if s.len() > 0 {
        let dl = s.drop_last();
        lemma_sorted_filter(dl, pred, key);
        lemma_filter_members(dl, pred);
        let out = s.filter(pred);
        assert forall|i: int, j: int| 0 <= i < j < out.len() implies lex_lt(
            key(out[i]),
            key(out[j]),
        ) by {
            if j < dl.filter(pred).len() {
                assert(out[i] == dl.filter(pred)[i]);
                assert(out[j] == dl.filter(pred)[j]);
            } else {
                // out[j] is the last element of s; out[i] sits in the filtered
                // prefix, so it is one of the prefix's elements.
                assert(out[j] == s.last());
                assert(out[i] == dl.filter(pred)[i]);
                assert(dl.contains(dl.filter(pred)[i]));
                let k = choose|k: int| 0 <= k < dl.len() && dl[k] == dl.filter(pred)[i];
                assert(lex_lt(key(s[k]), key(s[s.len() - 1])));
            }
        }
    }
}

/// Copies an optional string; the copy holds the same characters.
pub fn clone_opt_string(o: &Option<String>) -> (r: Option<String>)
    ensures
        r == *o,
{
    match o {
        Some(s) => Some(s.clone()),
        None => None,
    }
}

/// Copies a vector of strings character for character.
pub fn clone_string_vec(v: &Vec<String>) -> (r: Vec<String>)
    ensures
        r@ == v@,
{
    let mut r: Vec<String> = Vec::new();
    let mut i: usize = 0;
    while i < v.len()
        invariant
            i <= v.len(),
            r@.len() == i,
            forall|k: int| 0 <= k < i ==> r@[k] == v@[k],
        decreases v.len() - i,
    {
        r.push(v[i].clone());
        i += 1;
    }
    proof {
        assert(r@ =~= v@);
    }
    r
}

/// Copies a vector of string pairs pair for pair.
pub fn clone_string_pairs(v: &Vec<(String, String)>) -> (r: Vec<(String, String)>)
    ensures
        r@ == v@,
{
    let mut r: Vec<(String, String)> = Vec::new();
    let mut i: usize = 0;
    while i < v.len()
        invariant
            i <= v.len(),
            r@.len() == i,
            forall|k: int| 0 <= k < i ==> r@[k] == v@[k],
        decreases v.len() - i,
    {
        let p = (v[i].0.clone(), v[i].1.clone());
        proof {
            assert(p == v@[i as int]);
        }
        r.push(p);
        i += 1;
    }
    proof {
        assert(r@ =~= v@);
    }
    r
}

/// A vector of strings sorted strictly ascending: each string occurs once.
pub open spec fn sorted_strings(s: Seq<Seq<char>>) -> bool {
    forall|i: int, j: int| 0 <= i < j < s.len() ==> lex_lt(s[i], s[j])
}

/// Membership test for a string in a vector of strings.
pub fn contains_string(v: &Vec<String>, s: &str) -> (r: bool)
    ensures
        r == v.deep_view().contains(s@),
{
    let mut i: usize = 0;
    while i < v.len()
        invariant
            i <= v.len(),
            forall|k: int| 0 <= k < i ==> v.deep_view()[k] != s@,
        decreases v.len() - i,
    {
        if str_eq(v[i].as_str(), s) {
            proof {
                assert(v.deep_view()[i as int] == s@);
            }
            return true;
        }
        i += 1;
    }
    proof {
        if v.deep_view().contains(s@) {
            let k = choose|k: int| 0 <= k < v.deep_view().len() && v.deep_view()[k] == s@;
            assert(false);
        }
    }
    false
}

/// Inserts a string into a sorted vector, keeping it sorted and duplicate-free.
pub fn insert_sorted_string(v: &mut Vec<String>, s: String)
    requires
        sorted_strings(old(v).deep_view()),
    ensures
        sorted_strings(final(v).deep_view()),
        forall|x: Seq<char>|
            final(v).deep_view().contains(x) <==> (old(v).deep_view().contains(x) || x == s@),
{
    let ghost v0 = old(v).deep_view();
    let mut idx: usize = 0;
    while idx < v.len() && str_lt(v[idx].as_str(), s.as_str())
        invariant
            idx <= v.len(),
            v == old(v),
            forall|k: int| 0 <= k < idx ==> lex_lt(v.deep_view()[k], s@),
        decreases v.len() - idx,
    {
        idx += 1;
    }
    if idx < v.len() && str_eq(v[idx].as_str(), s.as_str()) {
        // already present: v unchanged, and s@ is one of its elements
        proof {
            assert(v.deep_view()[idx as int] == s@);
            assert(v.deep_view().contains(s@));
        }
        return ;
    }
    v.insert(idx, s);
    proof {
        let fv = v.deep_view();
        assert(v@ == old(v)@.insert(idx as int, s));
        assert forall|k: int| 0 <= k < fv.len() implies fv[k] == (if k < idx {
            v0[k]
        } else if k == idx {
            s@
        } else {
            v0[k - 1]
        }) by {
            assert(v@[k] == old(v)@.insert(idx as int, s)[k]);
        }
        assert forall|i: int, j: int| 0 <= i < j < fv.len() implies lex_lt(fv[i], fv[j]) by {
            if j == idx {
                assert(lex_lt(v0[i], s@));
            } else if i == idx && j > idx {
                assert(idx < v0.len());
                if !lex_lt(s@, v0[idx as int]) {
                    lemma_lex_lt_connected(v0[idx as int], s@);
                    assert(false);
                }
                assert(lex_lt(s@, v0[idx as int]));
                if j - 1 > idx {
                    lemma_lex_lt_trans(s@, v0[idx as int], v0[j - 1]);
                }
            } else if i < idx && j > idx {
                if j - 1 == i {
                    assert(false);
                }
            }
        }
        assert forall|x: Seq<char>| fv.contains(x) <==> (v0.contains(x) || x == s@) by {
            if fv.contains(x) {
                let k = choose|k: int| 0 <= k < fv.len() && fv[k] == x;
                if k < idx {
                    assert(v0[k] == x);
                } else if k > idx {
                    assert(v0[k - 1] == x);
                }
            }
            if v0.contains(x) {
                let k = choose|k: int| 0 <= k < v0.len() && v0[k] == x;
                if k < idx {
                    assert(fv[k] == x);
                } else {
                    assert(fv[k + 1] == x);
                }
            }
            if x == s@ {
                assert(fv[idx as int] == x);
            }
        }
    }
}

/// The pieces of a sequence split at every occurrence of `c`: always at
/// least one piece, and empty pieces between adjacent separators survive.
pub open spec fn spec_split(s: Seq<char>, c: char) -> Seq<Seq<char>>
    decreases s.len(),
{
    if s.len() == 0 {
        seq![Seq::<char>::empty()]
    } else if s[0] == c {
        seq![Seq::<char>::empty()] + spec_split(s.skip(1), c)
    } else {
        let r = spec_split(s.skip(1), c);
        seq![seq![s[0]] + r[0]] + r.skip(1)
    }
}

pub proof fn lemma_split_nonempty(s: Seq<char>, c: char)
    ensures
        spec_split(s, c).len() >= 1,
    decreases s.len(),
{
    if s.len() > 0 {
        lemma_split_nonempty(s.skip(1), c);
    }
}

/// Splits a string at every occurrence of `c`, as [`spec_split`] says.
pub fn split_string(s: &str, c: char) -> (r: Vec<String>)
    ensures
        r.deep_view() == spec_split(s@, c),
{
    let len = s.unicode_len();
    let mut out: Vec<String> = Vec::new();
    let mut start: usize = 0;
    let mut i: usize = 0;
    proof {
        lemma_split_nonempty(s@, c);
        assert(s@.skip(0) =~= s@);
        assert(s@.subrange(0, 0) =~= Seq::<char>::empty());
        assert(Seq::<char>::empty() + spec_split(s@, c)[0] =~= spec_split(s@, c)[0]);
        assert(out.deep_view() + (seq![s@.subrange(0, 0) + spec_split(s@.skip(0), c)[0]]
            + spec_split(s@.skip(0), c).skip(1)) =~= spec_split(s@, c));
    }
    while i < len
        invariant
            start <= i <= len,
            len == s@.len(),
            forall|k: int| start <= k < i ==> s@[k] != c,
            spec_split(s@, c) == out.deep_view() + (seq![
                s@.subrange(start as int, i as int) + spec_split(s@.skip(i as int), c)[0],
            ] + spec_split(s@.skip(i as int), c).skip(1)),
        decreases len - i,
    {
        let ghost t_next = spec_split(s@.skip(i as int + 1), c);
        proof {
            lemma_split_nonempty(s@.skip(i as int + 1), c);
            assert(s@.skip(i as int)[0] == s@[i as int]);
            assert(s@.skip(i as int).skip(1) =~= s@.skip(i as int + 1));
        }
        if s.get_char(i) == c {
            let piece = String::from_str(s.substring_char(start, i));
            let ghost out0 = out.deep_view();
            out.push(piece);
            proof {
                let t = spec_split(s@.skip(i as int), c);
                assert(t == seq![Seq::<char>::empty()] + t_next);
                assert(t[0] =~= Seq::<char>::empty());
                assert(t.skip(1) =~= t_next);
                assert(out.deep_view() =~= out0.push(s@.subrange(start as int, i as int)));
                assert(s@.subrange(start as int, i as int) + Seq::<char>::empty()
                    =~= s@.subrange(start as int, i as int));
                assert(s@.subrange(i as int + 1, i as int + 1) =~= Seq::<char>::empty());
                assert(Seq::<char>::empty() + t_next[0] =~= t_next[0]);
                assert(out0 + (seq![s@.subrange(start as int, i as int) + t[0]] + t.skip(1))
                    =~= out.deep_view() + (seq![s@.subrange(i as int + 1, i as int + 1) + t_next[0]]
                    + t_next.skip(1)));
            }
            start = i + 1;
        } else {
            proof {
                let t = spec_split(s@.skip(i as int), c);
                assert(t == seq![seq![s@[i as int]] + t_next[0]] + t_next.skip(1));
                assert(t[0] == seq![s@[i as int]] + t_next[0]);
                assert(t.skip(1) =~= t_next.skip(1));
                assert(s@.subrange(start as int, i as int + 1) =~= s@.subrange(
                    start as int,
                    i as int,
                ).push(s@[i as int]));
                assert(s@.subrange(start as int, i as int) + (seq![s@[i as int]] + t_next[0])
                    =~= s@.subrange(start as int, i as int + 1) + t_next[0]);
            }
        }
        i += 1;
    }
    let piece = String::from_str(s.substring_char(start, len));
    let ghost out0 = out.deep_view();
    out.push(piece);
    proof {
        let t = spec_split(s@.skip(len as int), c);
        assert(s@.skip(len as int).len() == 0);
        assert(t[0] =~= Seq::<char>::empty());
        assert(t.skip(1) =~= Seq::<Seq<char>>::empty());
        assert(out.deep_view() =~= out0.push(s@.subrange(start as int, len as int)));
        assert(s@.subrange(start as int, len as int) + Seq::<char>::empty() =~= s@.subrange(
            start as int,
            len as int,
        ));
        assert(out0 + (seq![s@.subrange(start as int, len as int) + t[0]] + t.skip(1))
            =~= out.deep_view());
    }
    out
}

/// Joins a directory path and a file name with a single separator.
pub fn join_path(dir: &str, name: &str) -> (r: String)
    ensures
        r@ == dir@ + "/"@ + name@,
{
    let mut r = String::from_str(dir);
    r.append("/");
    r.append(name);
    r
}

} // verus!
