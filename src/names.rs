//! Variable names: plain unknowns and their images under the S-box.
use vstd::prelude::*;

verus! {

/// `n` names the image `S(x)` of some variable `x` under the S-box: such a
/// variable is auxiliary, never solved for directly.
pub open spec fn is_image(n: Seq<char>) -> bool {
    &&& n.len() >= 3
    &&& n[0] == 'S'
    &&& n[1] == '('
    &&& n[n.len() - 1] == ')'
}

/// The variable that `n` stands for: `x` for `S(x)`, `n` itself otherwise.
pub open spec fn base_name(n: Seq<char>) -> Seq<char> {
    if is_image(n) {
        n.subrange(2, n.len() - 1)
    } else {
        n
    }
}

/// `v` holds a name equal to `n`.
pub open spec fn has_name(v: Seq<String>, n: Seq<char>) -> bool {
    exists|k: int| 0 <= k < v.len() && #[trigger] v[k]@ == n
}

/// Whether `s` names an S-box image.
pub fn is_image_name(s: &String) -> (r: bool)
    ensures
        r == is_image(s@),
{
    let t = s.as_str();
    let n = t.unicode_len();
    n >= 3 && t.get_char(0) == 'S' && t.get_char(1) == '(' && t.get_char(n - 1) == ')'
}

/// The variable that `s` stands for.
pub fn base_of(s: &String) -> (r: String)
    ensures
        r@ == base_name(s@),
{
    if is_image_name(s) {
        let t = s.as_str();
        let n = t.unicode_len();
        t.substring_char(2, n - 1).to_owned()
    } else {
        s.clone()
    }
}

/// Whether `v` holds a name equal to `n`.
pub fn contains_name(v: &Vec<String>, n: &String) -> (r: bool)
    ensures
        r == has_name(v@, n@),
{
    let mut j: usize = 0;
    while j < v.len()
        invariant
            j <= v@.len(),
            forall|k: int| 0 <= k < j ==> v@[k]@ != n@,
        decreases v@.len() - j,
    {
        if v[j] == *n {
            return true;
        }
        j = j + 1;
    }
    false
}

/// `needle` occurs in `hay` at position `i`.
pub open spec fn occurs_at(hay: Seq<char>, needle: Seq<char>, i: int) -> bool {
    0 <= i && i + needle.len() <= hay.len() && hay.subrange(i, i + needle.len()) == needle
}

/// `needle` occurs somewhere in `hay`.
pub open spec fn contains_text(hay: Seq<char>, needle: Seq<char>) -> bool {
    exists|i: int| #[trigger] occurs_at(hay, needle, i)
}

/// Whether `needle` occurs in `hay` at position `i`.
fn text_at(hay: &str, needle: &str, i: usize) -> (r: bool)
    requires
        i + needle@.len() <= hay@.len(),
        hay@.len() <= usize::MAX,
    ensures
        r == occurs_at(hay@, needle@, i as int),
{
    let n = needle.unicode_len();
    let mut k: usize = 0;
    while k < n
        invariant
            n == needle@.len(),
            i + n <= hay@.len(),
            hay@.len() <= usize::MAX,
            k <= n,
            forall|d: int| 0 <= d < k ==> hay@[i + d] == needle@[d],
        decreases n - k,
    {
        if hay.get_char(i + k) != needle.get_char(k) {
            assert(hay@.subrange(i as int, i + n)[k as int] != needle@[k as int]);
            return false;
        }
        k = k + 1;
    }
    assert(hay@.subrange(i as int, i + n) =~= needle@);
    true
}

/// Whether `needle` occurs in `hay`.
pub fn contains_str(hay: &String, needle: &String) -> (r: bool)
    ensures
        r == contains_text(hay@, needle@),
{
    let h = hay.as_str();
    let nd = needle.as_str();
    let hl = h.unicode_len();
    let nl = nd.unicode_len();
    if nl > hl {
        assert forall|i: int| !occurs_at(hay@, needle@, i) by {}
        return false;
    }
    if nl == 0 {
        assert(hay@.subrange(0, 0) =~= needle@);
        assert(occurs_at(hay@, needle@, 0));
        return true;
    }
    let mut i: usize = 0;
    while i <= hl - nl
        invariant
            hl == hay@.len(),
            nl == needle@.len(),
            nl <= hl,
            nl >= 1,
            i <= hl - nl + 1,
            h@ == hay@,
            nd@ == needle@,
            forall|k: int| 0 <= k < i ==> !#[trigger] occurs_at(hay@, needle@, k),
        decreases hl - nl + 1 - i,
    {
        if text_at(h, nd, i) {
            assert(occurs_at(hay@, needle@, i as int));
            return true;
        }
        i = i + 1;
    }
    assert forall|k: int| !#[trigger] occurs_at(hay@, needle@, k) by {
        if 0 <= k && k < i {
        }
    }
    false
}

/// The pairs `(x, s)` of names of `variables` where `s` holds `x` and
/// differs from it: a variable and its S-box image, in the order of
/// `variables`.
pub fn get_variable_if_sboxed(variables: &Vec<String>) -> (r: Vec<(String, String)>)
    ensures
        forall|k: int|
            0 <= k < r@.len() ==> contains_text((#[trigger] r@[k]).1@, r@[k].0@) && r@[k].1@ != r@[k].0@
                && has_name(variables@, r@[k].0@) && has_name(variables@, r@[k].1@),
        forall|a: int, b: int|
            0 <= a < variables@.len() && 0 <= b < variables@.len() && contains_text(
                #[trigger] variables@[b]@,
                #[trigger] variables@[a]@,
            ) && variables@[b]@ != variables@[a]@ ==> exists|k: int|
                0 <= k < r@.len() && r@[k].0@ == variables@[a]@ && r@[k].1@ == variables@[b]@,
        (forall|a: int, b: int| 0 <= a < variables@.len() && 0 <= b < variables@.len() && a != b ==> variables@[a]@ != variables@[b]@)
            ==> forall|k1: int, k2: int| 0 <= k1 < k2 < r@.len() ==> #[trigger] r@[k1].0@ != #[trigger] r@[k2].0@ || r@[k1].1@ != r@[k2].1@,
{
    let ghost ix: Seq<(int, int)> = Seq::empty();
    let mut r: Vec<(String, String)> = Vec::new();
    let mut a: usize = 0;
    while a < variables.len()
        invariant
            a <= variables@.len(),
            ix.len() == r@.len(),
            forall|k: int| 0 <= k < ix.len() ==> 0 <= (#[trigger] ix[k]).0 < a && 0 <= ix[k].1 < variables@.len()
                && r@[k].0@ == variables@[ix[k].0]@ && r@[k].1@ == variables@[ix[k].1]@,
            forall|k1: int, k2: int| 0 <= k1 < k2 < ix.len() ==> ix[k1].0 < ix[k2].0 || (ix[k1].0 == ix[k2].0 && ix[k1].1 < ix[k2].1),
            forall|k: int|
                0 <= k < r@.len() ==> contains_text((#[trigger] r@[k]).1@, r@[k].0@) && r@[k].1@ != r@[k].0@
                    && has_name(variables@, r@[k].0@) && has_name(variables@, r@[k].1@),
            forall|x: int, y: int|
                0 <= x < a && 0 <= y < variables@.len() && contains_text(
                    #[trigger] variables@[y]@,
                    #[trigger] variables@[x]@,
                ) && variables@[y]@ != variables@[x]@ ==> exists|k: int|
                    0 <= k < r@.len() && r@[k].0@ == variables@[x]@ && r@[k].1@ == variables@[y]@,
        decreases variables@.len() - a,
    {
        let mut b: usize = 0;
        while b < variables.len()
            invariant
                a < variables@.len(),
                b <= variables@.len(),
                ix.len() == r@.len(),
                forall|k: int| 0 <= k < ix.len() ==> 0 <= (#[trigger] ix[k]).0 <= a && 0 <= ix[k].1 < variables@.len()
                    && r@[k].0@ == variables@[ix[k].0]@ && r@[k].1@ == variables@[ix[k].1]@ && (ix[k].0 == a ==> ix[k].1 < b),
                forall|k1: int, k2: int| 0 <= k1 < k2 < ix.len() ==> ix[k1].0 < ix[k2].0 || (ix[k1].0 == ix[k2].0 && ix[k1].1 < ix[k2].1),
                forall|k: int|
                    0 <= k < r@.len() ==> contains_text((#[trigger] r@[k]).1@, r@[k].0@) && r@[k].1@ != r@[k].0@
                        && has_name(variables@, r@[k].0@) && has_name(variables@, r@[k].1@),
                forall|x: int, y: int|
                    0 <= x < a && 0 <= y < variables@.len() && contains_text(
                        #[trigger] variables@[y]@,
                        #[trigger] variables@[x]@,
                    ) && variables@[y]@ != variables@[x]@ ==> exists|k: int|
                        0 <= k < r@.len() && r@[k].0@ == variables@[x]@ && r@[k].1@ == variables@[y]@,
                forall|y: int|
                    0 <= y < b && contains_text(#[trigger] variables@[y]@, variables@[a as int]@)
                        && variables@[y]@ != variables@[a as int]@ ==> exists|k: int|
                        0 <= k < r@.len() && r@[k].0@ == variables@[a as int]@ && r@[k].1@ == variables@[y]@,
            decreases variables@.len() - b,
        {
            let ghost r0 = r@;
            if contains_str(&variables[b], &variables[a]) && variables[b] != variables[a] {
                r.push((variables[a].clone(), variables[b].clone()));
                proof {
                    let ix0 = ix;
                    ix = ix.push((a as int, b as int));
                    assert forall|k: int| 0 <= k < ix.len() implies 0 <= (#[trigger] ix[k]).0 <= a && 0 <= ix[k].1 < variables@.len()
                        && r@[k].0@ == variables@[ix[k].0]@ && r@[k].1@ == variables@[ix[k].1]@ && (ix[k].0 == a ==> ix[k].1 < b + 1) by {
                        if k < ix0.len() {
                            assert(ix[k] == ix0[k]);
                            assert(r@[k] == r0[k]);
                        }
                    }
                    assert forall|k1: int, k2: int| 0 <= k1 < k2 < ix.len() implies ix[k1].0 < ix[k2].0 || (ix[k1].0 == ix[k2].0 && ix[k1].1 < ix[k2].1) by {
                        if k2 < ix0.len() {
                            assert(ix[k1] == ix0[k1] && ix[k2] == ix0[k2]);
                        } else {
                            assert(ix[k1] == ix0[k1]);
                        }
                    }
                    let last = r@.len() - 1;
                    assert(r@[last].0@ == variables@[a as int]@);
                    assert(r@[last].1@ == variables@[b as int]@);
                    assert forall|k: int| 0 <= k < r@.len() implies contains_text((#[trigger] r@[k]).1@, r@[k].0@) && r@[k].1@ != r@[k].0@
                        && has_name(variables@, r@[k].0@) && has_name(variables@, r@[k].1@) by {
                        if k < r0.len() {
                            assert(r@[k] == r0[k]);
                        }
                    }
                    assert forall|x: int, y: int| 0 <= x < a && 0 <= y < variables@.len() && contains_text(
                        #[trigger] variables@[y]@,
                        #[trigger] variables@[x]@,
                    ) && variables@[y]@ != variables@[x]@ implies exists|k: int|
                        0 <= k < r@.len() && r@[k].0@ == variables@[x]@ && r@[k].1@ == variables@[y]@ by {
                        let k = choose|k: int| 0 <= k < r0.len() && r0[k].0@ == variables@[x]@ && r0[k].1@ == variables@[y]@;
                        assert(r@[k] == r0[k]);
                    }
                    assert forall|y: int| 0 <= y < b + 1 && contains_text(#[trigger] variables@[y]@, variables@[a as int]@)
                        && variables@[y]@ != variables@[a as int]@ implies exists|k: int|
                        0 <= k < r@.len() && r@[k].0@ == variables@[a as int]@ && r@[k].1@ == variables@[y]@ by {
                        if y < b {
                            let k = choose|k: int| 0 <= k < r0.len() && r0[k].0@ == variables@[a as int]@ && r0[k].1@ == variables@[y]@;
                            assert(r@[k] == r0[k]);
                        }
                    }
                }
            }
            b = b + 1;
        }
        a = a + 1;
    }
    proof {
        if forall|x: int, y: int| 0 <= x < variables@.len() && 0 <= y < variables@.len() && x != y ==> variables@[x]@ != variables@[y]@ {
            assert forall|k1: int, k2: int| 0 <= k1 < k2 < r@.len() implies #[trigger] r@[k1].0@ != #[trigger] r@[k2].0@ || r@[k1].1@ != r@[k2].1@ by {
                assert(ix[k1].0 < ix[k2].0 || (ix[k1].0 == ix[k2].0 && ix[k1].1 < ix[k2].1));
                let (a1, b1) = ix[k1];
                let (a2, b2) = ix[k2];
                assert(r@[k1].0@ == variables@[a1]@ && r@[k2].0@ == variables@[a2]@);
                assert(r@[k1].1@ == variables@[b1]@ && r@[k2].1@ == variables@[b2]@);
            }
        }
    }
    r
}

/// `n` names an auxiliary variable, one not solved for directly: its name
/// holds a parenthesis, as the S-box image `S(x)` does.
pub open spec fn is_auxiliary(n: Seq<char>) -> bool {
    exists|i: int| 0 <= i < n.len() && n[i] == '('
}

/// Whether `s` names an auxiliary variable.
pub fn is_auxiliary_name(s: &String) -> (r: bool)
    ensures
        r == is_auxiliary(s@),
{
    let t = s.as_str();
    let n = t.unicode_len();
    let mut i: usize = 0;
    while i < n
        invariant
            n == s@.len(),
            t@ == s@,
            i <= n,
            forall|k: int| 0 <= k < i ==> s@[k] != '(',
        decreases n - i,
    {
        if t.get_char(i) == '(' {
            return true;
        }
        i = i + 1;
    }
    false
}

/// `a` comes no later than `b` in lexicographic order, comparing from
/// position `i` on.
pub open spec fn lex_le_from(a: Seq<char>, b: Seq<char>, i: int) -> bool
    decreases a.len() - i,
{
    if i < 0 || i >= a.len() {
        true
    } else if i >= b.len() {
        false
    } else if (a[i] as u32) < (b[i] as u32) {
        true
    } else if (a[i] as u32) > (b[i] as u32) {
        false
    } else {
        lex_le_from(a, b, i + 1)
    }
}

/// `a` comes no later than `b` in lexicographic order.
pub open spec fn lex_le(a: Seq<char>, b: Seq<char>) -> bool {
    lex_le_from(a, b, 0)
}

/// Of two names, one comes no later than the other.
pub proof fn lemma_lex_total(a: Seq<char>, b: Seq<char>, i: int)
    requires
        0 <= i,
    ensures
        lex_le_from(a, b, i) || lex_le_from(b, a, i),
    decreases a.len() - i,
{
    if i < a.len() && i < b.len() && (a[i] as u32) == (b[i] as u32) {
        lemma_lex_total(a, b, i + 1);
    }
}

/// Whether `a` comes no later than `b` in lexicographic order.
pub fn lex_le_names(a: &String, b: &String) -> (r: bool)
    ensures
        r == lex_le(a@, b@),
{
    let sa = a.as_str();
    let sb = b.as_str();
    let na = sa.unicode_len();
    let nb = sb.unicode_len();
    let mut i: usize = 0;
    while i < na
        invariant
            na == a@.len(),
            nb == b@.len(),
            sa@ == a@,
            sb@ == b@,
            i <= na,
            lex_le_from(a@, b@, 0) == lex_le_from(a@, b@, i as int),
        decreases na - i,
    {
        if i >= nb {
            return false;
        }
        let ca = sa.get_char(i) as u32;
        let cb = sb.get_char(i) as u32;
        if ca < cb {
            return true;
        }
        if ca > cb {
            return false;
        }
        i = i + 1;
    }
    true
}

/// Lexicographic order is transitive.
pub proof fn lemma_lex_trans(a: Seq<char>, b: Seq<char>, c: Seq<char>, i: int)
    requires
        0 <= i,
        lex_le_from(a, b, i),
        lex_le_from(b, c, i),
    ensures
        lex_le_from(a, c, i),
    decreases a.len() - i,
{
    if i < a.len() && i < b.len() && i < c.len() && (a[i] as u32) == (b[i] as u32) && (b[i] as u32) == (c[i] as u32) {
        lemma_lex_trans(a, b, c, i + 1);
    }
}

} // verus!
