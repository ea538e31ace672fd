//! Component descriptors and the placeholder injection that rewrites them.

use vstd::prelude::*;
use crate::matcher::{matches_any, matches_any_spec};

verus! {

/// Tag under which the placeholder component is registered in a descriptor.
pub open spec fn placeholder_tag() -> Seq<char> {
    "fu-empty-wrapper"@
}

/// Reference path of the placeholder component.
pub open spec fn placeholder_ref() -> Seq<char> {
    "/FuEmptyWrapper"@
}

/// The mapping that a list of `(key, value)` entries denotes: a later entry
/// for a key shadows an earlier one, as in an object literal.
pub open spec fn entries_map(v: Seq<(String, String)>) -> Map<Seq<char>, Seq<char>>
    decreases v.len(),
{
    if v.len() == 0 {
        Map::empty()
    } else {
        entries_map(v.drop_last()).insert(v.last().0@, v.last().1@)
    }
}

/// No key appears twice among the entries.
pub open spec fn keys_unique(v: Seq<(String, String)>) -> bool {
    forall|i: int, j: int|
        0 <= i < v.len() && 0 <= j < v.len() && i != j ==> #[trigger] v[i].0@ != #[trigger] v[j].0@
}

/// What a descriptor says, as mappings; `None` stands for a field that is
/// absent or null.
pub struct DescriptorView {
    pub using: Option<Map<Seq<char>, Seq<char>>>,
    pub placeholder: Option<Map<Seq<char>, Seq<char>>>,
}

/// The fields of a component descriptor that placeholder injection reads and
/// writes. Every other field of the descriptor is carried unchanged by the caller.
pub struct ComponentDescriptor {
    /// `usingComponents`: local component name to reference path.
    pub using_components: Option<Vec<(String, String)>>,
    /// `componentPlaceholder`: local component name to placeholder tag.
    pub component_placeholder: Option<Vec<(String, String)>>,
}

pub open spec fn opt_map(o: Option<Vec<(String, String)>>) -> Option<Map<Seq<char>, Seq<char>>> {
    match o {
        Some(v) => Some(entries_map(v@)),
        None => None,
    }
}

pub open spec fn opt_unique(o: Option<Vec<(String, String)>>) -> bool {
    match o {
        Some(v) => keys_unique(v@),
        None => true,
    }
}

impl View for ComponentDescriptor {
    type V = DescriptorView;

    open spec fn view(&self) -> DescriptorView {
        DescriptorView {
            using: opt_map(self.using_components),
            placeholder: opt_map(self.component_placeholder),
        }
    }
}

impl ComponentDescriptor {
    /// Both tables are mappings: no key is listed twice.
    pub open spec fn wf(&self) -> bool {
        opt_unique(self.using_components) && opt_unique(self.component_placeholder)
    }
}

/// Some reference of `using` points into one of `roots`.
pub open spec fn has_async_ref(using: Map<Seq<char>, Seq<char>>, roots: Seq<String>) -> bool {
    exists|k: Seq<char>| #[trigger] using.contains_key(k) && matches_any_spec(using[k], roots)
}

/// The placeholder table after classification: every earlier entry is kept as
/// it was, and each name whose reference points into an async root and that had
/// no entry gets the placeholder tag.
pub open spec fn classified(
    using: Map<Seq<char>, Seq<char>>,
    placeholder: Map<Seq<char>, Seq<char>>,
    roots: Seq<String>,
) -> Map<Seq<char>, Seq<char>> {
    Map::new(
        |k: Seq<char>|
            placeholder.contains_key(k) || (using.contains_key(k) && matches_any_spec(using[k], roots)),
        |k: Seq<char>|
            if placeholder.contains_key(k) {
                placeholder[k]
            } else {
                placeholder_tag()
            },
    )
}

/// Injection writes the descriptor back: it has a `usingComponents` table, and
/// either a placeholder table already or a reference into an async root.
pub open spec fn writes(d: DescriptorView, roots: Seq<String>) -> bool {
    d.using is Some && (d.placeholder is Some || has_async_ref(d.using->0, roots))
}

/// The mapping has at least one key.
pub open spec fn has_entry(m: Map<Seq<char>, Seq<char>>) -> bool {
    exists|k: Seq<char>| #[trigger] m.contains_key(k)
}

/// The descriptor after injection.
pub open spec fn injected(d: DescriptorView, roots: Seq<String>) -> DescriptorView {
    if !writes(d, roots) {
        d
    } else {
        let u = d.using->0;
        let prior = match d.placeholder {
            Some(p) => p,
            None => Map::empty(),
        };
        let p = classified(u, prior, roots);
        DescriptorView {
            using: Some(
                if has_entry(p) && !u.contains_key(placeholder_tag()) {
                    u.insert(placeholder_tag(), placeholder_ref())
                } else {
                    u
                },
            ),
            placeholder: Some(p),
        }
    }
}

/// Keys and values of the entries, and the values of unique keys.
pub proof fn lemma_entries_map(v: Seq<(String, String)>)
    ensures
        forall|k: Seq<char>|
            #[trigger] entries_map(v).contains_key(k) <==> exists|i: int|
                0 <= i < v.len() && #[trigger] v[i].0@ == k,
        keys_unique(v) ==> forall|i: int|
            0 <= i < v.len() ==> #[trigger] entries_map(v)[v[i].0@] == v[i].1@,
    decreases v.len(),
{
    if v.len() > 0 {
        let w = v.drop_last();
        lemma_entries_map(w);
        assert(entries_map(v) == entries_map(w).insert(v.last().0@, v.last().1@));
        assert forall|k: Seq<char>|
            #[trigger] entries_map(v).contains_key(k) <==> exists|i: int|
                0 <= i < v.len() && #[trigger] v[i].0@ == k by {
            if entries_map(v).contains_key(k) && k != v.last().0@ {
                assert(entries_map(w).contains_key(k));
                let i = choose|i: int| 0 <= i < w.len() && #[trigger] w[i].0@ == k;
                assert(v[i].0@ == k);
            }
            if exists|i: int| 0 <= i < v.len() && #[trigger] v[i].0@ == k {
                let i = choose|i: int| 0 <= i < v.len() && #[trigger] v[i].0@ == k;
                if i < v.len() - 1 {
                    assert(w[i].0@ == k);
                    assert(entries_map(w).contains_key(k));
                } else {
                    assert(v.last().0@ == k);
                }
            }
        }
        if keys_unique(v) {
            assert(keys_unique(w)) by {
                assert forall|i: int, j: int|
                    0 <= i < w.len() && 0 <= j < w.len() && i != j implies #[trigger] w[i].0@
                    != #[trigger] w[j].0@ by {
                    assert(w[i] == v[i] && w[j] == v[j]);
                }
            }
            assert forall|i: int| 0 <= i < v.len() implies #[trigger] entries_map(v)[v[i].0@]
                == v[i].1@ by {
                if i < v.len() - 1 {
                    assert(w[i] == v[i]);
                    assert(v[i].0@ != v[v.len() - 1].0@);
                    assert(entries_map(w)[w[i].0@] == w[i].1@);
                }
            }
        }
    }
}

proof fn lemma_entries_map_push(v: Seq<(String, String)>, e: (String, String))
    ensures
        entries_map(v.push(e)) == entries_map(v).insert(e.0@, e.1@),
{
    assert(v.push(e).drop_last() =~= v);
}

/// Whether no key appears twice among the entries.
pub fn has_unique_keys(v: &Vec<(String, String)>) -> (r: bool)
    ensures
        r == keys_unique(v@),
{
    let mut i: usize = 0;
    while i < v.len()
        invariant
            i <= v.len(),
            forall|a: int, b: int|
                0 <= a < i && 0 <= b < v.len() && a != b ==> #[trigger] v@[a].0@ != #[trigger] v@[b].0@,
        decreases v.len() - i,
    {
        let mut j: usize = 0;
        while j < v.len()
            invariant
                i < v.len(),
                j <= v.len(),
                forall|a: int, b: int|
                    0 <= a < i && 0 <= b < v.len() && a != b ==> #[trigger] v@[a].0@ != #[trigger] v@[b].0@,
                forall|b: int| 0 <= b < j && b != i ==> v@[i as int].0@ != #[trigger] v@[b].0@,
            decreases v.len() - j,
        {
            if j != i && v[i].0 == v[j].0 {
                return false;
            }
            j = j + 1;
        }
        i = i + 1;
    }
    true
}

fn opt_unique_exec(o: &Option<Vec<(String, String)>>) -> (r: bool)
    ensures
        r == opt_unique(*o),
{
    match o {
        Some(v) => has_unique_keys(v),
        None => true,
    }
}

impl ComponentDescriptor {
    /// Whether both tables list each key once.
    pub fn is_well_formed(&self) -> (r: bool)
        ensures
            r == self.wf(),
    {
        opt_unique_exec(&self.using_components) && opt_unique_exec(&self.component_placeholder)
    }
}

/// Whether the entries have `k` as a key.
pub fn has_key(v: &Vec<(String, String)>, k: &String) -> (r: bool)
    ensures
        r == entries_map(v@).contains_key(k@),
{
    let mut i: usize = 0;
    while i < v.len()
        invariant
            i <= v.len(),
            forall|j: int| 0 <= j < i ==> #[trigger] v@[j].0@ != k@,
        decreases v.len() - i,
    {
        if v[i].0 == *k {
            proof {
                lemma_entries_map(v@);
                assert(v@[i as int].0@ == k@);
            }
            return true;
        }
        i = i + 1;
    }
    proof {
        lemma_entries_map(v@);
    }
    false
}

/// The optional table has an entry for `n`.
pub open spec fn table_has(t: Option<Map<Seq<char>, Seq<char>>>, n: Seq<char>) -> bool {
    t is Some && t->0.contains_key(n)
}

/// Injection is idempotent: a second run with the same roots changes nothing,
/// as long as the placeholder's own reference does not point into an async root.
pub proof fn lemma_inject_idempotent(d: DescriptorView, roots: Seq<String>)
    requires
        !matches_any_spec(placeholder_ref(), roots),
    ensures
        injected(injected(d, roots), roots) == injected(d, roots),
{
    if writes(d, roots) {
        let d1 = injected(d, roots);
        let u = d.using->0;
        let u1 = d1.using->0;
        let p = d1.placeholder->0;
        assert(writes(d1, roots));
        assert(classified(u1, p, roots) =~= p) by {
            assert forall|k: Seq<char>|
                u1.contains_key(k) && matches_any_spec(u1[k], roots) implies p.contains_key(k) by {
                if u.contains_key(k) {
                    assert(u1[k] == u[k]);
                }
            }
        }
        let d2 = injected(d1, roots);
        assert(d2.using == d1.using);
        assert(d2 == d1);
    }
}

/// Classification: injection gives a name a new placeholder entry exactly when
/// its reference points into an async root and it had no entry before; the new
/// entry is the placeholder tag, and an entry that was there stays as it was.
pub proof fn lemma_classification(d: DescriptorView, roots: Seq<String>, n: Seq<char>)
    requires
        d.using is Some,
    ensures
        (table_has(injected(d, roots).placeholder, n) && !table_has(d.placeholder, n)) <==> (
        d.using->0.contains_key(n) && matches_any_spec(d.using->0[n], roots) && !table_has(
            d.placeholder,
            n,
        )),
        table_has(injected(d, roots).placeholder, n) && !table_has(d.placeholder, n)
            ==> injected(d, roots).placeholder->0[n] == placeholder_tag(),
        table_has(d.placeholder, n) ==> table_has(injected(d, roots).placeholder, n)
            && injected(d, roots).placeholder->0[n] == d.placeholder->0[n],
{
    if d.using->0.contains_key(n) && matches_any_spec(d.using->0[n], roots) {
        assert(has_async_ref(d.using->0, roots));
    }
}

/// `classified`, over the first `n` entries of `u` only.
spec fn prefix_classified(
    u: Seq<(String, String)>,
    n: int,
    prior: Map<Seq<char>, Seq<char>>,
    roots: Seq<String>,
) -> Map<Seq<char>, Seq<char>> {
    Map::new(
        |k: Seq<char>|
            prior.contains_key(k) || exists|j: int|
                0 <= j < n && #[trigger] u[j].0@ == k && matches_any_spec(u[j].1@, roots),
        |k: Seq<char>|
            if prior.contains_key(k) {
                prior[k]
            } else {
                placeholder_tag()
            },
    )
}

spec fn prefix_has_async(u: Seq<(String, String)>, n: int, roots: Seq<String>) -> bool {
    exists|j: int| 0 <= j < n && matches_any_spec(#[trigger] u[j].1@, roots)
}

proof fn lemma_prefix_complete(
    u: Seq<(String, String)>,
    prior: Map<Seq<char>, Seq<char>>,
    roots: Seq<String>,
)
    requires
        keys_unique(u),
    ensures
        prefix_classified(u, u.len() as int, prior, roots) == classified(entries_map(u), prior, roots),
        prefix_has_async(u, u.len() as int, roots) == has_async_ref(entries_map(u), roots),
{
    lemma_entries_map(u);
    let m = entries_map(u);
    assert forall|k: Seq<char>|
        (exists|j: int|
            0 <= j < u.len() && #[trigger] u[j].0@ == k && matches_any_spec(u[j].1@, roots)) <==> (
        m.contains_key(k) && matches_any_spec(m[k], roots)) by {
        if m.contains_key(k) && matches_any_spec(m[k], roots) {
            let j = choose|j: int| 0 <= j < u.len() && #[trigger] u[j].0@ == k;
            assert(m[u[j].0@] == u[j].1@);
        }
        if exists|j: int|
            0 <= j < u.len() && #[trigger] u[j].0@ == k && matches_any_spec(u[j].1@, roots) {
            let j = choose|j: int|
                0 <= j < u.len() && #[trigger] u[j].0@ == k && matches_any_spec(u[j].1@, roots);
            assert(m[u[j].0@] == u[j].1@);
            assert(m.contains_key(k));
        }
    }
    assert(prefix_classified(u, u.len() as int, prior, roots) =~= classified(m, prior, roots));
    if prefix_has_async(u, u.len() as int, roots) {
        let j = choose|j: int| 0 <= j < u.len() && matches_any_spec(#[trigger] u[j].1@, roots);
        assert(m[u[j].0@] == u[j].1@);
        assert(m.contains_key(u[j].0@));
    }
    if has_async_ref(m, roots) {
        let k = choose|k: Seq<char>| #[trigger] m.contains_key(k) && matches_any_spec(m[k], roots);
        let j = choose|j: int| 0 <= j < u.len() && #[trigger] u[j].0@ == k;
        assert(m[u[j].0@] == u[j].1@);
    }
}

/// Redirects every reference of the descriptor that points into one of
/// `async_roots` to the placeholder component, and returns whether the
/// descriptor is to be written back.
///
/// A descriptor without `usingComponents` is left alone. An entry already in
/// `componentPlaceholder` is never replaced. Once the placeholder table has an
/// entry, `usingComponents` registers the placeholder component under its tag,
/// unless that tag is taken already.
pub fn inject_placeholder(desc: &mut ComponentDescriptor, async_roots: &Vec<String>) -> (write: bool)
    requires
        old(desc).wf(),
    ensures
        final(desc).wf(),
        write == writes(old(desc)@, async_roots@),
        final(desc)@ == injected(old(desc)@, async_roots@),
{
    if desc.using_components.is_none() {
        return false;
    }
    let ghost d0 = desc@;
    let mut using = match desc.using_components.take() {
        Some(u) => u,
        None => Vec::new(),
    };
    let ghost u_init = using@;
    let had_placeholder = desc.component_placeholder.is_some();
    let mut placeholder = match desc.component_placeholder.take() {
        Some(p) => p,
        None => Vec::new(),
    };
    let ghost prior = entries_map(placeholder@);
    proof {
        if !had_placeholder {
            assert(prior == Map::<Seq<char>, Seq<char>>::empty());
        }
        assert(prefix_classified(using@, 0, prior, async_roots@) =~= prior);
    }
    let tag = String::from_str("fu-empty-wrapper");
    let mut found = false;
    let mut i: usize = 0;
    while i < using.len()
        invariant
            i <= using.len(),
            using@ == u_init,
            keys_unique(using@),
            keys_unique(placeholder@),
            tag@ == placeholder_tag(),
            entries_map(placeholder@) == prefix_classified(using@, i as int, prior, async_roots@),
            found == prefix_has_async(using@, i as int, async_roots@),
        decreases using.len() - i,
    {
        if matches_any(using[i].1.as_str(), async_roots) {
            found = true;
            if !has_key(&placeholder, &using[i].0) {
                let name = using[i].0.clone();
                let ghost old_p = placeholder@;
                placeholder.push((name, tag.clone()));
                proof {
                    lemma_entries_map_push(old_p, (name, tag));
                    lemma_entries_map(old_p);
                    assert(keys_unique(placeholder@)) by {
                        assert forall|a: int, b: int|
                            0 <= a < placeholder@.len() && 0 <= b < placeholder@.len() && a != b
                            implies #[trigger] placeholder@[a].0@ != #[trigger] placeholder@[b].0@ by {
                            if a < old_p.len() && b < old_p.len() {
                                assert(placeholder@[a] == old_p[a] && placeholder@[b] == old_p[b]);
                            } else if a < old_p.len() {
                                assert(placeholder@[a] == old_p[a]);
                            } else {
                                assert(placeholder@[b] == old_p[b]);
                            }
                        }
                    }
                    assert(using@[i as int].0@ == name@);
                    assert(entries_map(placeholder@) =~= prefix_classified(
                        using@,
                        i + 1,
                        prior,
                        async_roots@,
                    ));
                }
            } else {
                proof {
                    assert(entries_map(placeholder@) =~= prefix_classified(
                        using@,
                        i + 1,
                        prior,
                        async_roots@,
                    ));
                }
            }
        } else {
            assert(entries_map(placeholder@) =~= prefix_classified(
                using@,
                i + 1,
                prior,
                async_roots@,
            ));
        }
        i = i + 1;
    }
    proof {
        lemma_prefix_complete(using@, prior, async_roots@);
    }
    if !had_placeholder && !found {
        desc.using_components = Some(using);
        return false;
    }
    let ghost p = entries_map(placeholder@);
    proof {
        lemma_entries_map(placeholder@);
        if placeholder@.len() > 0 {
            assert(p.contains_key(placeholder@[placeholder@.len() - 1].0@));
        }
        assert(has_entry(p) == (placeholder@.len() > 0));
        assert(d0.using->0 == entries_map(u_init));
        assert(p == classified(d0.using->0, prior, async_roots@));
    }
    let add_tag = placeholder.len() > 0 && !has_key(&using, &tag);
    assert(add_tag == (has_entry(p) && !entries_map(
        u_init,
    ).contains_key(placeholder_tag())));
    if add_tag {
        let ghost old_u = using@;
        let wrapper = String::from_str("/FuEmptyWrapper");
        using.push((tag, wrapper));
        proof {
            lemma_entries_map_push(old_u, (tag, wrapper));
            lemma_entries_map(old_u);
            assert forall|a: int, b: int|
                0 <= a < using@.len() && 0 <= b < using@.len() && a != b
                implies #[trigger] using@[a].0@ != #[trigger] using@[b].0@ by {
                if a < old_u.len() && b < old_u.len() {
                    assert(using@[a] == old_u[a] && using@[b] == old_u[b]);
                } else if a < old_u.len() {
                    assert(using@[a] == old_u[a]);
                } else {
                    assert(using@[b] == old_u[b]);
                }
            }
        }
    }
    desc.using_components = Some(using);
    desc.component_placeholder = Some(placeholder);
    true
}

} // verus!
