use vstd::prelude::*;
use vstd::string::StringSliceAdditionalSpecFns;
use vstd::utf8::encode_utf8;

verus! {

/// The canonical name of the plain family of environment files.
pub const DOTENV: &'static str = ".env";

/// The canonical name of the Roblox family of environment files.
pub const ROBLOX_DOTENV: &'static str = ".env.roblox";

/// The bytes of a string, as Rust compares and matches them.
pub open spec fn name_bytes(s: String) -> Seq<u8> {
    encode_utf8(s@)
}

/// Strict lexicographic order on byte strings: the order of `str`'s `Ord`.
pub open spec fn lex_lt(a: Seq<u8>, b: Seq<u8>) -> bool
    decreases a.len(),
{
    if a.len() == 0 {
        b.len() > 0
    } else if b.len() == 0 {
        false
    } else if a[0] != b[0] {
        a[0] < b[0]
    } else {
        lex_lt(a.drop_first(), b.drop_first())
    }
}

pub proof fn lemma_lex_trichotomy(a: Seq<u8>, b: Seq<u8>)
    ensures
        lex_lt(a, b) || a == b || lex_lt(b, a),
        !(lex_lt(a, b) && lex_lt(b, a)),
        !lex_lt(a, a),
    decreases a.len(),
{
    lemma_lex_irreflexive(a);
    if a.len() > 0 && b.len() > 0 {
        lemma_lex_trichotomy(a.drop_first(), b.drop_first());
        if a[0] == b[0] && a.drop_first() == b.drop_first() {
            assert(a =~= b) by {
                assert forall|i: int| 0 <= i < a.len() implies a[i] == b[i] by {
                    if i > 0 {
                        assert(a[i] == a.drop_first()[i - 1]);
                    }
                }
            }
        }
    } else if a.len() == 0 && b.len() == 0 {
        assert(a =~= b);
    }
}

pub proof fn lemma_lex_irreflexive(a: Seq<u8>)
    ensures
        !lex_lt(a, a),
    decreases a.len(),
{
    if a.len() > 0 {
        lemma_lex_irreflexive(a.drop_first());
    }
}

pub proof fn lemma_lex_transitive(a: Seq<u8>, b: Seq<u8>, c: Seq<u8>)
    requires
        lex_lt(a, b),
        lex_lt(b, c),
    ensures
        lex_lt(a, c),
    decreases a.len(),
{
    if a.len() > 0 && b.len() > 0 && c.len() > 0 {
        if a[0] == b[0] && b[0] == c[0] {
            lemma_lex_transitive(a.drop_first(), b.drop_first(), c.drop_first());
        }
    }
}

/// Whether `n` names a file of the family whose canonical name is `c`:
/// `c` itself, or `c` followed by a dot and anything.
pub open spec fn is_env_file_name(n: Seq<u8>, c: Seq<u8>) -> bool {
    n == c || (n.len() > c.len() && n.subrange(0, c.len() as int) == c && n[c.len() as int]
        == 0x2eu8)
}

/// Whether `a` may be loaded before `b`: the canonical name `c` comes after
/// every other name, the others come in lexicographic order.
pub open spec fn precedes(a: Seq<u8>, b: Seq<u8>, c: Seq<u8>) -> bool {
    b == c || (a != c && !lex_lt(b, a))
}

pub proof fn lemma_precedes_total(a: Seq<u8>, b: Seq<u8>, c: Seq<u8>)
    ensures
        precedes(a, b, c) || precedes(b, a, c),
{
    lemma_lex_trichotomy(a, b);
}

pub proof fn lemma_precedes_transitive(a: Seq<u8>, b: Seq<u8>, d: Seq<u8>, c: Seq<u8>)
    requires
        precedes(a, b, c),
        precedes(b, d, c),
    ensures
        precedes(a, d, c),
{
    if d != c {
        lemma_lex_trichotomy(d, b);
        lemma_lex_trichotomy(b, a);
        if lex_lt(d, a) {
            if lex_lt(b, d) {
                lemma_lex_transitive(b, d, a);
            }
        }
    }
}

/// The names of `names` that belong to the family of `c`, in their order.
pub open spec fn candidates(names: Seq<String>, c: Seq<u8>) -> Seq<String>
    decreases names.len(),
{
    if names.len() == 0 {
        Seq::empty()
    } else if is_env_file_name(name_bytes(names.last()), c) {
        candidates(names.drop_last(), c).push(names.last())
    } else {
        candidates(names.drop_last(), c)
    }
}

/// Every name of `s` is loaded no later than every name after it.
pub open spec fn in_load_order(s: Seq<String>, c: Seq<u8>) -> bool {
    forall|i: int, j: int|
        0 <= i < j < s.len() ==> #[trigger] precedes(name_bytes(s[i]), name_bytes(s[j]), c)
}

/// `order` is the list of files to load, out of the directory entries `names`:
/// exactly the family's names, sorted for loading.
pub open spec fn is_load_order(order: Seq<String>, names: Seq<String>, c: Seq<u8>) -> bool {
    &&& order.to_multiset() == candidates(names, c).to_multiset()
    &&& in_load_order(order, c)
}

/// Compares two byte strings in lexicographic order.
fn bytes_lt(a: &[u8], b: &[u8]) -> (r: bool)
    ensures
        r == lex_lt(a@, b@),
{
    let mut i: usize = 0;
    assert(a@.skip(0) =~= a@);
    assert(b@.skip(0) =~= b@);
    while i < a.len() && i < b.len()
        invariant
            i <= a@.len(),
            i <= b@.len(),
            lex_lt(a@, b@) == lex_lt(a@.skip(i as int), b@.skip(i as int)),
        decreases a.len() - i,
    {
        if a[i] != b[i] {
            return a[i] < b[i];
        }
        assert(a@.skip(i as int).drop_first() =~= a@.skip(i + 1));
        assert(b@.skip(i as int).drop_first() =~= b@.skip(i + 1));
        i = i + 1;
    }
    i == a.len() && i < b.len()
}

fn bytes_eq(a: &[u8], b: &[u8]) -> (r: bool)
    ensures
        r == (a@ == b@),
{
    proof {
        lemma_lex_trichotomy(a@, b@);
    }
    !bytes_lt(a, b) && !bytes_lt(b, a)
}

/// Whether the file `name` belongs to the family of the canonical name `canonical`.
pub fn is_env_file(name: &str, canonical: &str) -> (r: bool)
    ensures
        r == is_env_file_name(name.spec_bytes(), canonical.spec_bytes()),
{
    let n = name.as_bytes();
    let c = canonical.as_bytes();
    if bytes_eq(n, c) {
        return true;
    }
    if n.len() <= c.len() {
        return false;
    }
    let mut i: usize = 0;
    while i < c.len()
        invariant
            i <= c@.len(),
            c@.len() < n@.len(),
            n@ == name.spec_bytes(),
            c@ == canonical.spec_bytes(),
            n@.subrange(0, i as int) == c@.subrange(0, i as int),
        decreases c.len() - i,
    {
        if n[i] != c[i] {
            assert(n@.subrange(0, c@.len() as int)[i as int] == n@[i as int]);
            assert(n@.subrange(0, c@.len() as int) != c@);
            assert(n@ != c@);
            return false;
        }
        assert(n@.subrange(0, i + 1) =~= n@.subrange(0, i as int).push(n@[i as int]));
        assert(c@.subrange(0, i + 1) =~= c@.subrange(0, i as int).push(c@[i as int]));
        i = i + 1;
    }
    assert(c@.subrange(0, c@.len() as int) =~= c@);
    n[c.len()] == 0x2e
}

fn precedes_exec(a: &String, b: &String, canonical: &str) -> (r: bool)
    ensures
        r == precedes(name_bytes(*a), name_bytes(*b), canonical.spec_bytes()),
{
    let ab = a.as_str().as_bytes();
    let bb = b.as_str().as_bytes();
    let cb = canonical.as_bytes();
    bytes_eq(bb, cb) || (!bytes_eq(ab, cb) && !bytes_lt(bb, ab))
}

/// The files to load out of the directory entries `names`, in the order to
/// load them: the names of the family of `canonical`, the canonical one last,
/// the others in lexicographic order.
pub fn load_order(names: Vec<String>, canonical: &str) -> (r: Vec<String>)
    ensures
        is_load_order(r@, names@, canonical.spec_bytes()),
        forall|i: int| 0 <= i < r@.len() ==> is_env_file_name(#[trigger] name_bytes(r@[i]),
            canonical.spec_bytes()),
{
    let ghost c = canonical.spec_bytes();
    let mut found: Vec<String> = Vec::new();
    let mut k: usize = 0;
    while k < names.len()
        invariant
            k <= names@.len(),
            found@ == candidates(names@.take(k as int), c),
            c == canonical.spec_bytes(),
        decreases names.len() - k,
    {
        assert(names@.take(k + 1).drop_last() =~= names@.take(k as int));
        assert(names@.take(k + 1).last() == names@[k as int]);
        let n = names[k].clone();
        if is_env_file(n.as_str(), canonical) {
            found.push(n);
        }
        k = k + 1;
    }
    assert(names@.take(names@.len() as int) =~= names@);
    proof {
        lemma_candidates_match(names@, c);
    }
    let mut r: Vec<String> = Vec::new();
    let mut k: usize = 0;
    assert(found@.take(0) =~= r@);
    while k < found.len()
        invariant
            k <= found@.len(),
            r@.to_multiset() == found@.take(k as int).to_multiset(),
            in_load_order(r@, c),
            c == canonical.spec_bytes(),
            forall|i: int| 0 <= i < found@.len() ==> is_env_file_name(#[trigger] name_bytes(found@[i]), c),
            forall|i: int| 0 <= i < r@.len() ==> is_env_file_name(#[trigger] name_bytes(r@[i]), c),
        decreases found.len() - k,
    {
        let x = found[k].clone();
        let mut p: usize = 0;
        while p < r.len()
            invariant
                p <= r@.len(),
                forall|i: int| 0 <= i < p ==> #[trigger] precedes(name_bytes(r@[i]), name_bytes(x), c),
                c == canonical.spec_bytes(),
            ensures
                p <= r@.len(),
                forall|i: int| 0 <= i < p ==> #[trigger] precedes(name_bytes(r@[i]), name_bytes(x), c),
                p < r@.len() ==> !precedes(name_bytes(r@[p as int]), name_bytes(x), c),
            decreases r.len() - p,
        {
            if !precedes_exec(&r[p], &x, canonical) {
                break;
            }
            p = p + 1;
        }
        proof {
            if p < r@.len() {
                lemma_precedes_total(name_bytes(r@[p as int]), name_bytes(x), c);
                assert forall|j: int| p <= j < r@.len() implies precedes(name_bytes(x), name_bytes(r@[j]), c) by {
                    if j > p {
                        assert(precedes(name_bytes(r@[p as int]), name_bytes(r@[j]), c));
                        lemma_precedes_transitive(name_bytes(x), name_bytes(r@[p as int]), name_bytes(r@[j]), c);
                    }
                }
            }
            broadcast use vstd::seq_lib::to_multiset_insert, vstd::seq_lib::to_multiset_build;
            assert(found@.take(k + 1) =~= found@.take(k as int).push(found@[k as int]));
        }
        let ghost old_r = r@;
        r.insert(p, x);
        proof {
            assert forall|i: int, j: int| 0 <= i < j < r@.len() implies #[trigger] precedes(name_bytes(r@[i]), name_bytes(r@[j]), c) by {
                if j < p {
                    assert(precedes(name_bytes(old_r[i]), name_bytes(old_r[j]), c));
                } else if j == p {
                } else if i < p {
                    assert(precedes(name_bytes(old_r[i]), name_bytes(old_r[j - 1]), c));
                } else if i == p {
                } else {
                    assert(precedes(name_bytes(old_r[i - 1]), name_bytes(old_r[j - 1]), c));
                }
            }
        }
        k = k + 1;
    }
    assert(found@.take(found@.len() as int) =~= found@);
    r
}

pub(crate) proof fn lemma_candidates_match(names: Seq<String>, c: Seq<u8>)
    ensures
        forall|i: int| 0 <= i < candidates(names, c).len() ==> is_env_file_name(#[trigger] name_bytes(candidates(names, c)[i]), c),
    decreases names.len(),
{
    if names.len() > 0 {
        lemma_candidates_match(names.drop_last(), c);
        let sub = candidates(names.drop_last(), c);
        if is_env_file_name(name_bytes(names.last()), c) {
            assert forall|i: int| 0 <= i < sub.len() implies sub.push(names.last())[i] == sub[i] by {}
        }
    }
}

proof fn lemma_candidates_contains(names: Seq<String>, c: Seq<u8>, i: int)
    requires
        0 <= i < names.len(),
        is_env_file_name(name_bytes(names[i]), c),
    ensures
        candidates(names, c).contains(names[i]),
    decreases names.len(),
{
    if i < names.len() - 1 {
        lemma_candidates_contains(names.drop_last(), c, i);
        let sub = candidates(names.drop_last(), c);
        let k = choose|k: int| 0 <= k < sub.len() && sub[k] == names[i];
        if is_env_file_name(name_bytes(names.last()), c) {
            assert(sub.push(names.last())[k] == names[i]);
        }
    } else {
        assert(candidates(names, c).last() == names[i]);
    }
}

proof fn lemma_candidates_from_names(names: Seq<String>, c: Seq<u8>, x: String)
    requires
        candidates(names, c).contains(x),
    ensures
        names.contains(x),
    decreases names.len(),
{
    if names.len() > 0 {
        let sub = candidates(names.drop_last(), c);
        if x == names.last() {
            assert(names[names.len() - 1] == x);
        } else {
            if is_env_file_name(name_bytes(names.last()), c) {
                let k = choose|k: int| 0 <= k < sub.len() + 1 && sub.push(names.last())[k] == x;
                assert(sub[k] == x);
            }
            lemma_candidates_from_names(names.drop_last(), c, x);
            let k = choose|k: int| 0 <= k < names.len() - 1 && names.drop_last()[k] == x;
            assert(names[k] == x);
        }
    }
}

/// Every file of a load order is one of the directory entries.
pub(crate) proof fn lemma_order_from_names(order: Seq<String>, names: Seq<String>, c: Seq<u8>, i: int)
    requires
        is_load_order(order, names, c),
        0 <= i < order.len(),
    ensures
        names.contains(order[i]),
{
    broadcast use vstd::seq_lib::to_multiset_contains;

    assert(order.contains(order[i]));
    assert(candidates(names, c).to_multiset().count(order[i]) > 0);
    lemma_candidates_from_names(names, c, order[i]);
}

/// Wherever the canonical file stands among the directory entries, it is the
/// last file of the load order.
pub proof fn lemma_canonical_loads_last(order: Seq<String>, names: Seq<String>, c: Seq<u8>, k: int)
    requires
        is_load_order(order, names, c),
        0 <= k < names.len(),
        name_bytes(names[k]) == c,
    ensures
        order.len() > 0,
        name_bytes(order.last()) == c,
{
    broadcast use vstd::seq_lib::to_multiset_contains;

    lemma_candidates_contains(names, c, k);
    assert(candidates(names, c).to_multiset().count(names[k]) > 0);
    assert(order.contains(names[k]));
    let j = choose|j: int| 0 <= j < order.len() && order[j] == names[k];
    if j < order.len() - 1 {
        assert(precedes(name_bytes(order[j]), name_bytes(order[order.len() - 1]), c));
    }
}

/// Two different suffixed files of a load order stand in strict
/// lexicographic order of their names.
pub proof fn lemma_suffixed_in_name_order(order: Seq<String>, names: Seq<String>, c: Seq<u8>, i: int, j: int)
    requires
        is_load_order(order, names, c),
        0 <= i < j < order.len(),
        name_bytes(order[i]) != c,
        name_bytes(order[j]) != c,
        name_bytes(order[i]) != name_bytes(order[j]),
    ensures
        lex_lt(name_bytes(order[i]), name_bytes(order[j])),
{
    assert(precedes(name_bytes(order[i]), name_bytes(order[j]), c));
    lemma_lex_trichotomy(name_bytes(order[i]), name_bytes(order[j]));
}

/// Without a canonical file among the entries, the load order holds only
/// suffixed files, in lexicographic order of their names.
pub proof fn lemma_without_canonical(order: Seq<String>, names: Seq<String>, c: Seq<u8>)
    requires
        is_load_order(order, names, c),
        forall|k: int| 0 <= k < names.len() ==> name_bytes(#[trigger] names[k]) != c,
    ensures
        forall|i: int| 0 <= i < order.len() ==> name_bytes(#[trigger] order[i]) != c
            && is_env_file_name(name_bytes(order[i]), c),
        forall|i: int, j: int| 0 <= i < j < order.len() ==> !lex_lt(name_bytes(#[trigger] order[j]), name_bytes(#[trigger] order[i])),
{
    broadcast use vstd::seq_lib::to_multiset_contains;

    lemma_candidates_match(names, c);
    assert forall|i: int| 0 <= i < order.len() implies name_bytes(#[trigger] order[i]) != c
        && is_env_file_name(name_bytes(order[i]), c) by {
        lemma_order_from_names(order, names, c, i);
        let k = choose|k: int| 0 <= k < names.len() && names[k] == order[i];
        assert(name_bytes(names[k]) != c);
        assert(order.contains(order[i]));
        assert(candidates(names, c).to_multiset().count(order[i]) > 0);
        let m = choose|m: int| 0 <= m < candidates(names, c).len() && candidates(names, c)[m] == order[i];
    }
    assert forall|i: int, j: int| 0 <= i < j < order.len() implies !lex_lt(name_bytes(#[trigger] order[j]), name_bytes(#[trigger] order[i])) by {
        assert(precedes(name_bytes(order[i]), name_bytes(order[j]), c));
    }
}

} // verus!
