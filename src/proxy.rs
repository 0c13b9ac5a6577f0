use vstd::prelude::*;
use crate::env::EnvStore;

verus! {

/// The variables that may name a proxy, in the order they are looked at.
pub open spec fn proxy_names() -> Seq<Seq<char>> {
    seq![
        "HTTP_PROXY"@,
        "http_proxy"@,
        "HTTPS_PROXY"@,
        "https_proxy"@,
        "ALL_PROXY"@,
        "all_proxy"@,
    ]
}

/// Whether `k` is set in `m` to a value that is not empty.
pub open spec fn is_set(m: Map<Seq<char>, Seq<char>>, k: Seq<char>) -> bool {
    m.contains_key(k) && m[k].len() > 0
}

/// The variables of `names` that are set in `m`, with their values, in the
/// order of `names`.
pub open spec fn detections(m: Map<Seq<char>, Seq<char>>, names: Seq<Seq<char>>) -> Seq<(Seq<char>, Seq<char>)>
    decreases names.len(),
{
    if names.len() == 0 {
        Seq::empty()
    } else if is_set(m, names.last()) {
        detections(m, names.drop_last()).push((names.last(), m[names.last()]))
    } else {
        detections(m, names.drop_last())
    }
}

pub open spec fn pairs_view(s: Seq<(String, String)>) -> Seq<(Seq<char>, Seq<char>)> {
    s.map_values(|p: (String, String)| (p.0@, p.1@))
}

/// The proxy settings found in an environment.
pub struct ProxyReport {
    /// Each proxy variable that is set, with its value.
    pub detected: Vec<(String, String)>,
    /// Whether a note on proxying is due: some proxy variable is set.
    pub advisory: bool,
}

fn proxy_variable_names() -> (r: Vec<String>)
    ensures
        r@.map_values(|s: String| s@) == proxy_names(),
{
    let r = vec![
        "HTTP_PROXY".to_owned(),
        "http_proxy".to_owned(),
        "HTTPS_PROXY".to_owned(),
        "https_proxy".to_owned(),
        "ALL_PROXY".to_owned(),
        "all_proxy".to_owned(),
    ];
    assert(r@.map_values(|s: String| s@) =~= proxy_names());
    r
}

/// Looks for proxy settings in `env`: each of the proxy variables that is
/// set to a value that is not empty is detected, in the order of
/// `proxy_names`, and one advisory is due if any is.
pub fn check_proxy_config(env: &EnvStore) -> (r: ProxyReport)
    ensures
        pairs_view(r.detected@) == detections(env@, proxy_names()),
        r.advisory == (detections(env@, proxy_names()).len() > 0),
{
    let names = proxy_variable_names();
    let ghost nv = names@.map_values(|s: String| s@);
    let mut detected: Vec<(String, String)> = Vec::new();
    let mut i: usize = 0;
    while i < names.len()
        invariant
            i <= names@.len(),
            nv == names@.map_values(|s: String| s@),
            pairs_view(detected@) == detections(env@, nv.take(i as int)),
        decreases names.len() - i,
    {
        assert(nv.take(i + 1).drop_last() =~= nv.take(i as int));
        assert(nv.take(i + 1).last() == names@[i as int]@);
        if let Some(v) = env.get(&names[i]) {
            if !v.as_str().is_empty() {
                proof {
                    assert(pairs_view(detected@.push((names@[i as int], *v))) =~= pairs_view(detected@).push((names@[i as int]@, v@)));
                }
                detected.push((names[i].clone(), v.clone()));
            }
        }
        i = i + 1;
    }
    assert(nv.take(nv.len() as int) =~= nv);
    let advisory = detected.len() > 0;
    ProxyReport { detected, advisory }
}

proof fn lemma_one_set_prefix(m: Map<Seq<char>, Seq<char>>, names: Seq<Seq<char>>, i: int)
    requires
        0 <= i < names.len(),
        forall|j: int| 0 <= j < names.len() && j != i ==> !is_set(m, #[trigger] names[j]),
    ensures
        detections(m, names) == (if is_set(m, names[i]) {
            seq![(names[i], m[names[i]])]
        } else {
            Seq::empty()
        }),
    decreases names.len(),
{
    if i < names.len() - 1 {
        assert(!is_set(m, names[names.len() - 1]));
        lemma_one_set_prefix(m, names.drop_last(), i);
    } else {
        assert(detections(m, names.drop_last()) =~= Seq::empty()) by {
            lemma_none_set(m, names.drop_last());
        }
        if is_set(m, names[i]) {
            assert(Seq::<(Seq<char>, Seq<char>)>::empty().push((names[i], m[names[i]])) =~= seq![(names[i], m[names[i]])]);
        }
    }
}

proof fn lemma_none_set(m: Map<Seq<char>, Seq<char>>, names: Seq<Seq<char>>)
    requires
        forall|j: int| 0 <= j < names.len() ==> !is_set(m, #[trigger] names[j]),
    ensures
        detections(m, names) == Seq::<(Seq<char>, Seq<char>)>::empty(),
    decreases names.len(),
{
    if names.len() > 0 {
        assert(!is_set(m, names[names.len() - 1]));
        lemma_none_set(m, names.drop_last());
    }
}

/// Where one proxy variable alone may be set: set to a value that is not
/// empty, it gives exactly one detection, with that value, and the advisory;
/// set to the empty string, neither.
pub proof fn lemma_single_proxy_variable(m: Map<Seq<char>, Seq<char>>, i: int)
    requires
        0 <= i < proxy_names().len(),
        m.contains_key(proxy_names()[i]),
        forall|j: int| 0 <= j < proxy_names().len() && j != i ==> !is_set(m, #[trigger] proxy_names()[j]),
    ensures
        m[proxy_names()[i]].len() > 0 ==> detections(m, proxy_names()) == seq![(proxy_names()[i], m[proxy_names()[i]])],
        m[proxy_names()[i]].len() == 0 ==> detections(m, proxy_names()).len() == 0,
{
    lemma_one_set_prefix(m, proxy_names(), i);
}

} // verus!
