//! The registered widget kinds: their ids, so call sites do not spell them
//! by hand, their palette labels and categories, and the palette generated
//! from them. A document names its widgets by these ids, never by a Rust
//! type name, so a type can be renamed without invalidating documents.

use vstd::prelude::*;
use crate::text::encoding::str_equals;

verus! {

pub const PANEL: &'static str = "panel";

pub const TEXT: &'static str = "text";

pub const BUTTON: &'static str = "button";

pub const STACK: &'static str = "stack";

pub const IMAGE: &'static str = "image";

pub const CHECK_BOX: &'static str = "checkBox";

/// Every registered id, in registration order.
pub const ALL: [&'static str; 6] = [PANEL, TEXT, BUTTON, STACK, IMAGE, CHECK_BOX];

/// The registered ids as texts, in registration order.
pub open spec fn registered() -> Seq<Seq<char>> {
    seq![PANEL@, TEXT@, BUTTON@, STACK@, IMAGE@, CHECK_BOX@]
}

/// Whether `kind` is a registered id.
pub fn is_registered(kind: &str) -> (b: bool)
    ensures
        b == registered().contains(kind@),
{
    let mut i: usize = 0;
    while i < ALL.len()
        invariant
            i <= 6,
            forall|j: int| 0 <= j < i ==> registered()[j] != kind@,
        decreases 6 - i,
    {
        assert(ALL@[i as int]@ == registered()[i as int]);
        if str_equals(ALL[i], kind) {
            return true;
        }
        i = i + 1;
    }
    false
}

/// No two kinds share an id, so looking one up never hides another.
pub proof fn lemma_kind_ids_are_distinct()
    ensures
        registered().no_duplicates(),
{
    reveal_strlit("panel");
    reveal_strlit("text");
    reveal_strlit("button");
    reveal_strlit("stack");
    reveal_strlit("image");
    reveal_strlit("checkBox");
    assert(registered()[0][0] == 'p');
    assert(registered()[1][0] == 't');
    assert(registered()[2][0] == 'b');
    assert(registered()[3][0] == 's');
    assert(registered()[4][0] == 'i');
    assert(registered()[5][0] == 'c');
}

/// What the palette shows for each registered kind, in registration order.
pub const LABELS: [&'static str; 6] = ["Panel", "Text", "Button", "Stack Panel", "Image", "Check Box"];

/// The palette group each registered kind appears under, in registration
/// order.
pub const CATEGORIES: [&'static str; 6] = ["Layout", "Content", "Input", "Layout", "Content", "Input"];

/// Whether some group lists position `i`.
pub open spec fn listed(groups: Seq<(Seq<char>, Seq<int>)>, i: int) -> bool {
    exists|k: int| 0 <= k < groups.len() && #[trigger] groups[k].1.contains(i)
}

/// Whether `groups` gathers the first `n` of `names` by name: each group is
/// a name with the ascending positions that carry it, every position is in
/// its group, no name heads two groups, and groups come in the order their
/// names first appear.
pub open spec fn gathers(names: Seq<Seq<char>>, n: int, groups: Seq<(Seq<char>, Seq<int>)>) -> bool {
    &&& forall|k: int| 0 <= k < groups.len() ==> (#[trigger] groups[k]).1.len() > 0
    &&& forall|k: int, j: int|
        0 <= k < groups.len() && 0 <= j < groups[k].1.len() ==> {
            let i = #[trigger] groups[k].1[j];
            &&& 0 <= i < n
            &&& names[i] == groups[k].0
        }
    &&& forall|k: int, j1: int, j2: int|
        0 <= k < groups.len() && 0 <= j1 < j2 < groups[k].1.len() ==> #[trigger] groups[k].1[j1]
            < #[trigger] groups[k].1[j2]
    &&& forall|i: int| 0 <= i < n ==> #[trigger] listed(groups, i)
    &&& forall|k1: int, k2: int|
        0 <= k1 < k2 < groups.len() ==> (#[trigger] groups[k1]).0 != (#[trigger] groups[k2]).0
            && groups[k1].1[0] < groups[k2].1[0]
}

/// Groups of positions, as values.
pub open spec fn groups_view(groups: Seq<(&'static str, Vec<usize>)>) -> Seq<(Seq<char>, Seq<int>)> {
    groups.map_values(|g: (&'static str, Vec<usize>)| (g.0@, g.1@.map_values(|i: usize| i as int)))
}

/// Where the group named `name` stands.
fn find_group(groups: &Vec<(&'static str, Vec<usize>)>, name: &'static str) -> (r: Option<usize>)
    ensures
        match r {
            Some(k) => k < groups@.len() && groups_view(groups@)[k as int].0 == name@,
            None => forall|w: int| 0 <= w < groups@.len() ==> groups_view(groups@)[w].0 != name@,
        },
{
    let mut k: usize = 0;
    while k < groups.len()
        invariant
            k <= groups@.len(),
            forall|w: int| 0 <= w < k ==> groups_view(groups@)[w].0 != name@,
        decreases groups@.len() - k,
    {
        if str_equals(groups[k].0, name) {
            return Some(k);
        }
        k = k + 1;
    }
    None
}

/// Gather the positions of `names` by name, groups in the order their
/// names first appear and positions ascending within each group.
pub fn group_by_name(names: &Vec<&'static str>) -> (groups: Vec<(&'static str, Vec<usize>)>)
    ensures
        gathers(names@.map_values(|s: &'static str| s@), names@.len() as int, groups_view(groups@)),
{
    let ghost nv = names@.map_values(|s: &'static str| s@);
    let mut groups: Vec<(&'static str, Vec<usize>)> = Vec::new();
    let mut i: usize = 0;
    while i < names.len()
        invariant
            i <= names@.len(),
            nv == names@.map_values(|s: &'static str| s@),
            gathers(nv, i as int, groups_view(groups@)),
        decreases names@.len() - i,
    {
        let name = names[i];
        let found = find_group(&groups, name);
        let k: usize = match found {
            Some(k) => k,
            None => groups.len(),
        };
        let ghost before = groups_view(groups@);
        if k < groups.len() {
            let mut list = Vec::new();
            std::mem::swap(&mut list, &mut groups[k].1);
            list.push(i);
            let entry = (groups[k].0, list);
            groups.set(k, entry);
            proof {
                let after = groups_view(groups@);
                assert(after[k as int].1 == before[k as int].1.push(i as int));
                assert(gathers(nv, i + 1, after)) by {
                    assert forall|k1: int| 0 <= k1 < after.len() implies (#[trigger] after[k1]).1.len() > 0 by {
                        if k1 != k {
                            assert(after[k1] == before[k1]);
                        }
                    }
                    assert forall|k1: int, j: int| 0 <= k1 < after.len() && 0 <= j < after[k1].1.len() implies {
                        let x = #[trigger] after[k1].1[j];
                        &&& 0 <= x < i + 1
                        &&& nv[x] == after[k1].0
                    } by {
                        if k1 != k {
                            assert(after[k1] == before[k1]);
                        } else if j < before[k as int].1.len() {
                            assert(after[k1].1[j] == before[k as int].1[j]);
                        }
                    }
                    assert forall|k1: int, j1: int, j2: int|
                        0 <= k1 < after.len() && 0 <= j1 < j2 < after[k1].1.len() implies #[trigger] after[k1].1[j1]
                        < #[trigger] after[k1].1[j2] by {
                        if k1 != k {
                            assert(after[k1] == before[k1]);
                        } else {
                            assert(after[k1].1[j1] == before[k as int].1[j1]);
                            if j2 < before[k as int].1.len() {
                                assert(after[k1].1[j2] == before[k as int].1[j2]);
                            }
                        }
                    }
                    assert forall|x: int| 0 <= x < i + 1 implies #[trigger] listed(after, x) by {
                        if x == i {
                            assert(after[k as int].1[before[k as int].1.len() as int] == x);
                            assert(after[k as int].1.contains(x));
                        } else {
                            assert(listed(before, x));
                            let k1 = choose|k1: int| 0 <= k1 < before.len() && #[trigger] before[k1].1.contains(x);
                            let j = choose|j: int| 0 <= j < before[k1].1.len() && before[k1].1[j] == x;
                            if k1 != k {
                                assert(after[k1] == before[k1]);
                            } else {
                                assert(after[k1].1[j] == x);
                            }
                            assert(after[k1].1.contains(x));
                        }
                    }
                    assert forall|k1: int, k2: int| 0 <= k1 < k2 < after.len() implies (#[trigger] after[k1]).0
                        != (#[trigger] after[k2]).0 && after[k1].1[0] < after[k2].1[0] by {
                        assert(after[k1].0 == before[k1].0);
                        assert(after[k2].0 == before[k2].0);
                        assert(after[k1].1[0] == before[k1].1[0]);
                        assert(after[k2].1[0] == before[k2].1[0]);
                    }
                }
            }
        } else {
            let mut list = Vec::new();
            list.push(i);
            groups.push((name, list));
            proof {
                let after = groups_view(groups@);
                assert(after.len() == before.len() + 1);
                assert forall|w: int| 0 <= w < before.len() implies after[w] == before[w] by {}
                assert(after[before.len() as int] == (name@, seq![i as int]));
                assert(gathers(nv, i + 1, after)) by {
                    assert forall|k1: int| 0 <= k1 < after.len() implies (#[trigger] after[k1]).1.len() > 0 by {}
                    assert forall|x: int| 0 <= x < i + 1 implies #[trigger] listed(after, x) by {
                        if x == i {
                            assert(after[before.len() as int].1[0] == x);
                            assert(after[before.len() as int].1.contains(x));
                        } else {
                            assert(listed(before, x));
                            let k1 = choose|k1: int| 0 <= k1 < before.len() && #[trigger] before[k1].1.contains(x);
                            assert(after[k1] == before[k1]);
                            assert(after[k1].1.contains(x));
                        }
                    }
                    assert forall|k1: int, k2: int| 0 <= k1 < k2 < after.len() implies (#[trigger] after[k1]).0
                        != (#[trigger] after[k2]).0 && after[k1].1[0] < after[k2].1[0] by {
                        if k2 < before.len() {
                            assert(after[k1] == before[k1]);
                            assert(after[k2] == before[k2]);
                        } else {
                            assert(after[k1] == before[k1]);
                            assert(before[k1].1.len() > 0);
                            assert(before[k1].1[0] < i);
                        }
                    }
                }
            }
        }
        i = i + 1;
    }
    groups
}

/// The registered kinds' categories as texts, in registration order.
pub open spec fn categories() -> Seq<Seq<char>> {
    CATEGORIES@.map_values(|c: &'static str| c@)
}

/// The palette: the registered kinds' ids by category, categories in the
/// order they first appear and kinds in registration order. Generated from
/// the registry, so a kind added there appears here.
pub fn palette() -> (p: Vec<(&'static str, Vec<&'static str>)>)
    ensures
        exists|g: Seq<(Seq<char>, Seq<int>)>|
            {
                &&& gathers(categories(), 6, g)
                &&& p@.len() == g.len()
                &&& forall|k: int|
                    0 <= k < g.len() ==> {
                        &&& (#[trigger] p@[k]).0@ == g[k].0
                        &&& p@[k].1@.len() == g[k].1.len()
                        &&& forall|j: int| 0 <= j < g[k].1.len() ==> (#[trigger] p@[k].1@[j])@ == registered()[g[k].1[j]]
                    }
            },
{
    let mut names: Vec<&'static str> = Vec::new();
    let mut i: usize = 0;
    while i < CATEGORIES.len()
        invariant
            i <= 6,
            names@ == CATEGORIES@.take(i as int),
        decreases 6 - i,
    {
        names.push(CATEGORIES[i]);
        assert(CATEGORIES@.take(i + 1) =~= names@);
        i = i + 1;
    }
    assert(CATEGORIES@.take(6) =~= CATEGORIES@);
    let groups = group_by_name(&names);
    let ghost g = groups_view(groups@);
    assert(names@.map_values(|s: &'static str| s@) =~= categories());
    let mut p: Vec<(&'static str, Vec<&'static str>)> = Vec::new();
    let mut k: usize = 0;
    while k < groups.len()
        invariant
            k <= groups@.len(),
            g == groups_view(groups@),
            gathers(categories(), 6, g),
            p@.len() == k,
            forall|k1: int|
                0 <= k1 < k ==> {
                    &&& (#[trigger] p@[k1]).0@ == g[k1].0
                    &&& p@[k1].1@.len() == g[k1].1.len()
                    &&& forall|j: int| 0 <= j < g[k1].1.len() ==> (#[trigger] p@[k1].1@[j])@ == registered()[g[k1].1[j]]
                },
        decreases groups@.len() - k,
    {
        let mut ids: Vec<&'static str> = Vec::new();
        let mut j: usize = 0;
        while j < groups[k].1.len()
            invariant
                k < groups@.len(),
                j <= groups@[k as int].1@.len(),
                g == groups_view(groups@),
                gathers(categories(), 6, g),
                ids@.len() == j,
                forall|j1: int| 0 <= j1 < j ==> (#[trigger] ids@[j1])@ == registered()[g[k as int].1[j1]],
            decreases groups@[k as int].1@.len() - j,
        {
            let at = groups[k].1[j];
            assert(g[k as int].1[j as int] == at as int);
            assert(0 <= at < 6);
            assert(ALL@[at as int]@ == registered()[at as int]);
            ids.push(ALL[at]);
            j = j + 1;
        }
        p.push((groups[k].0, ids));
        k = k + 1;
    }
    p
}

/// Gathering lists each position once: no position sits in two groups or
/// twice in one, so the palette shows every registered kind exactly once.
pub proof fn lemma_each_position_is_listed_once(
    names: Seq<Seq<char>>,
    n: int,
    groups: Seq<(Seq<char>, Seq<int>)>,
    k1: int,
    j1: int,
    k2: int,
    j2: int,
)
    requires
        gathers(names, n, groups),
        0 <= k1 < groups.len(),
        0 <= k2 < groups.len(),
        0 <= j1 < groups[k1].1.len(),
        0 <= j2 < groups[k2].1.len(),
        groups[k1].1[j1] == groups[k2].1[j2],
    ensures
        k1 == k2 && j1 == j2,
{
    let x = groups[k1].1[j1];
    assert(names[x] == groups[k1].0);
    assert(names[groups[k2].1[j2]] == groups[k2].0);
    if k1 < k2 {
        assert(groups[k1].0 != groups[k2].0);
    } else if k2 < k1 {
        assert(groups[k2].0 != groups[k1].0);
    } else if j1 < j2 {
        assert(groups[k1].1[j1] < groups[k1].1[j2]);
    } else if j2 < j1 {
        assert(groups[k1].1[j2] < groups[k1].1[j1]);
    }
}

} // verus!
