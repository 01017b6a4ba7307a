//! Names that nothing has yet.

use crate::error::{Resource, SynthError};
use crate::word::module::{ModuleView, WordModule};
use crate::word::names::{append_decimal, decimal, decimals_are_distinct};
use vstd::prelude::*;
use vstd::string::StringExecFns;

verus! {

/// The name with a number: the base itself, and then the base with a suffix.
pub open spec fn candidate_name(base: Seq<char>, number: nat) -> Seq<char> {
    if number == 0 {
        base
    } else {
        base + "$"@ + decimal(number)
    }
}

pub open spec fn taken_name(taken: Seq<String>, name: Seq<char>) -> bool {
    exists|i: int| 0 <= i < taken.len() && (#[trigger] taken[i])@ == name
}

fn is_taken(taken: &Vec<String>, name: &String) -> (found: bool)
    ensures
        found == taken_name(taken@, name@),
{
    let mut i: usize = 0;
    while i < taken.len()
        invariant
            i <= taken@.len(),
            forall|k: int| 0 <= k < i ==> (#[trigger] taken@[k])@ != name@,
        decreases taken.len() - i,
    {
        if taken[i] == *name {
            assert(taken@[i as int]@ == name@);
            return true;
        }
        i += 1;
    }
    false
}

/// The first name with a number is free, and all before it are taken.
pub open spec fn first_free(taken: Seq<String>, base: Seq<char>, number: nat) -> bool {
    &&& !taken_name(taken, candidate_name(base, number))
    &&& forall|k: nat| k < number ==> taken_name(taken, #[trigger] candidate_name(base, k))
}

/// The first name that is not taken.
pub fn unique_name(base: &String, taken: &Vec<String>) -> (result: Result<String, SynthError>)
    ensures
        match result {
            Ok(name) => exists|number: nat|
                name@ == candidate_name(base@, number) && #[trigger] first_free(
                    taken@,
                    base@,
                    number,
                ),
            Err(_) => false,
        },
{
    if !is_taken(taken, base) {
        proof {
            assert(candidate_name(base@, 0) == base@);
            assert(first_free(taken@, base@, 0));
        }
        return Ok(base.clone());
    }
    let mut suffix: u64 = 0;
    while suffix < u64::MAX
        invariant
            forall|k: nat|
                k <= suffix ==> taken_name(taken@, #[trigger] candidate_name(base@, k)),
        decreases u64::MAX - suffix,
    {
        suffix += 1;
        let mut name = base.clone();
        name.append("$");
        append_decimal(&mut name, suffix);
        assert(name@ =~= candidate_name(base@, suffix as nat));
        if !is_taken(taken, &name) {
            assert(first_free(taken@, base@, suffix as nat));
            return Ok(name);
        }
    }
    let total: usize = taken.len();
    proof {
        assert(total <= usize::MAX);
        lemma_all_taken(taken@, base@, (u64::MAX + 1) as nat);
        assert(false);
    }
    Err(SynthError::Capacity(Resource::Signals))
}

/// Names with different numbers differ.
proof fn lemma_candidates_differ(base: Seq<char>, left: nat, right: nat)
    requires
        candidate_name(base, left) == candidate_name(base, right),
    ensures
        left == right,
{
    reveal_strlit("$");
    let a = candidate_name(base, left);
    let b = candidate_name(base, right);
    if left == 0 || right == 0 {
        if left != 0 {
            assert(a.len() > base.len());
        }
        if right != 0 {
            assert(b.len() > base.len());
        }
    } else {
        let rest = (base + "$"@).len() as int;
        assert(a.skip(rest) =~= decimal(left));
        assert(b.skip(rest) =~= decimal(right));
        decimals_are_distinct(left, right);
    }
}

/// So many names are taken by no fewer.
proof fn lemma_all_taken(taken: Seq<String>, base: Seq<char>, count: nat)
    requires
        forall|k: nat| k < count ==> taken_name(taken, #[trigger] candidate_name(base, k)),
    ensures
        taken.len() >= count,
{
    let texts = taken.map_values(|name: String| name@);
    let names = Seq::new(count, |k: int| candidate_name(base, k as nat));
    assert forall|i: int, j: int| 0 <= i < j < names.len() implies names[i] != names[j] by {
        if names[i] == names[j] {
            lemma_candidates_differ(base, i as nat, j as nat);
        }
    }
    names.unique_seq_to_set();
    texts.lemma_cardinality_of_set();
    assert(names.to_set().subset_of(texts.to_set())) by {
        assert forall|name: Seq<char>| names.to_set().contains(name) implies texts.to_set().contains(
            name,
        ) by {
            let k = choose|k: int| 0 <= k < names.len() && names[k] == name;
            assert(taken_name(taken, candidate_name(base, k as nat)));
            let i = choose|i: int| 0 <= i < taken.len() && (#[trigger] taken[i])@ == name;
            assert(texts[i] == name);
        }
    }
    vstd::set_lib::lemma_len_subset(names.to_set(), texts.to_set());
}

/// The names of the signals of a module.
pub fn signal_names(module: &WordModule) -> (names: Vec<String>)
    ensures
        forall|name: Seq<char>|
            #[trigger] taken_name(names@, name) <==> signal_named(module@, name),
{
    let mut names: Vec<String> = Vec::new();
    let mut i: usize = 0;
    while i < module.signals.len()
        invariant
            i <= module@.signals.len(),
            forall|name: Seq<char>|
                #[trigger] taken_name(names@, name) <==> exists|k: int|
                    0 <= k < i && #[trigger] names_signal(module@, k, name),
        decreases module.signals.len() - i,
    {
        let ghost before = names@;
        if let Some(id) = module.signals[i].name {
            if (id.raw as usize) < module.names.len() {
                names.push(module.names[id.raw as usize].clone());
            }
        }
        proof {
            assert forall|name: Seq<char>|
                #[trigger] taken_name(names@, name) <==> exists|k: int|
                    0 <= k < i + 1 && #[trigger] names_signal(module@, k, name) by {
                assert(names_signal(module@, i as int, name) || !names_signal(
                    module@,
                    i as int,
                    name,
                ));
                if taken_name(before, name) {
                    let k = choose|k: int| 0 <= k < before.len() && (#[trigger] before[k])@ == name;
                    assert(names@[k]@ == name);
                }
                if taken_name(names@, name) {
                    let k = choose|k: int| 0 <= k < names@.len() && (#[trigger] names@[k])@ == name;
                    if k < before.len() {
                        assert(before[k]@ == name);
                        assert(taken_name(before, name));
                    }
                }
                if names_signal(module@, i as int, name) {
                    assert(names@[names@.len() - 1]@ == name);
                }
            }
        }
        i += 1;
    }
    proof {
        assert forall|name: Seq<char>| #[trigger] taken_name(names@, name) <==> signal_named(
            module@,
            name,
        ) by {
            if signal_named(module@, name) {
                let k = choose|k: int|
                    0 <= k < module@.signals.len() && #[trigger] names_signal(module@, k, name);
                assert(names_signal(module@, k, name));
            }
        }
    }
    names
}

pub open spec fn names_signal(module: ModuleView, signal: int, name: Seq<char>) -> bool {
    module.signals[signal].name matches Some(id) && id.raw < module.names.len()
        && module.names[id.raw as int] == name
}

pub open spec fn signal_named(module: ModuleView, name: Seq<char>) -> bool {
    exists|k: int| 0 <= k < module.signals.len() && #[trigger] names_signal(module, k, name)
}

/// The names of the instances of a module.
pub fn instance_names(module: &WordModule) -> (names: Vec<String>)
    ensures
        forall|name: Seq<char>|
            #[trigger] taken_name(names@, name) <==> instance_named(module@, name),
{
    let mut names: Vec<String> = Vec::new();
    let mut i: usize = 0;
    while i < module.instances.len()
        invariant
            i <= module@.instances.len(),
            forall|name: Seq<char>|
                #[trigger] taken_name(names@, name) <==> exists|k: int|
                    0 <= k < i && #[trigger] names_instance(module@, k, name),
        decreases module.instances.len() - i,
    {
        let ghost before = names@;
        let id = module.instances[i].name;
        if (id.raw as usize) < module.names.len() {
            names.push(module.names[id.raw as usize].clone());
        }
        proof {
            assert forall|name: Seq<char>|
                #[trigger] taken_name(names@, name) <==> exists|k: int|
                    0 <= k < i + 1 && #[trigger] names_instance(module@, k, name) by {
                assert(names_instance(module@, i as int, name) || !names_instance(
                    module@,
                    i as int,
                    name,
                ));
                if taken_name(before, name) {
                    let k = choose|k: int| 0 <= k < before.len() && (#[trigger] before[k])@ == name;
                    assert(names@[k]@ == name);
                }
                if taken_name(names@, name) {
                    let k = choose|k: int| 0 <= k < names@.len() && (#[trigger] names@[k])@ == name;
                    if k < before.len() {
                        assert(before[k]@ == name);
                        assert(taken_name(before, name));
                    }
                }
                if names_instance(module@, i as int, name) {
                    assert(names@[names@.len() - 1]@ == name);
                }
            }
        }
        i += 1;
    }
    proof {
        assert forall|name: Seq<char>| #[trigger] taken_name(names@, name) <==> instance_named(
            module@,
            name,
        ) by {
            if instance_named(module@, name) {
                let k = choose|k: int|
                    0 <= k < module@.instances.len() && #[trigger] names_instance(module@, k, name);
                assert(names_instance(module@, k, name));
            }
        }
    }
    names
}

pub open spec fn names_instance(module: ModuleView, instance: int, name: Seq<char>) -> bool {
    let id = module.instances[instance].name;
    id.raw < module.names.len() && module.names[id.raw as int] == name
}

pub open spec fn instance_named(module: ModuleView, name: Seq<char>) -> bool {
    exists|k: int| 0 <= k < module.instances.len() && #[trigger] names_instance(module, k, name)
}

} // verus!
