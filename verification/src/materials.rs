//! Material lookups by name: the position of a material in the database, and the cited
//! condensed-matter equation-of-state parameter set that goes with a material name.

use vstd::prelude::*;

verus! {

/// `i` is the first position holding `id`.
pub open spec fn is_first_index(ids: Seq<Seq<char>>, id: Seq<char>, i: int) -> bool {
    &&& 0 <= i < ids.len()
    &&& ids[i] == id
    &&& forall|j: int| 0 <= j < i ==> #[trigger] ids[j] != id
}

/// The text of each material id.
pub open spec fn id_views(ids: Seq<String>) -> Seq<Seq<char>> {
    ids.map_values(|s: String| s@)
}

/// The position of the first material whose id is `id`, if any.
pub fn position_of(ids: &Vec<String>, id: &str) -> (p: Option<usize>)
    ensures
        match p {
            Some(i) => is_first_index(id_views(ids@), id@, i as int),
            None => forall|j: int| 0 <= j < ids@.len() ==> #[trigger] ids@[j]@ != id@,
        },
{
    let wanted = String::from_str(id);
    let mut i: usize = 0;
    while i < ids.len()
        invariant
            i <= ids@.len(),
            wanted@ == id@,
            forall|j: int| 0 <= j < i ==> #[trigger] ids@[j]@ != id@,
        decreases ids@.len() - i,
    {
        if ids[i] == wanted {
            return Some(i);
        }
        i = i + 1;
    }
    None
}

/// The index of material `id` in the database. The material must be present.
pub fn index_of(ids: &Vec<String>, id: &str) -> (i: usize)
    requires
        exists|j: int| 0 <= j < ids@.len() && #[trigger] ids@[j]@ == id@,
    ensures
        is_first_index(id_views(ids@), id@, i as int),
{
    match position_of(ids, id) {
        Some(i) => i,
        None => {
            proof {
                let j = choose|j: int| 0 <= j < ids@.len() && #[trigger] ids@[j]@ == id@;
                assert(ids@[j]@ != id@);
            }
            0
        },
    }
}

/// The materials with a cited Tillotson equation-of-state parameter set.
#[derive(Clone, Copy, Debug, PartialEq, Eq, Structural)]
pub enum EosPreset {
    Granite,
    Basalt,
    Peridotite,
    Iron,
}

/// The preset for a material name; `None` for materials without a characterized condensed-matter
/// equation of state (water, ice, soil, …).
pub open spec fn eos_preset_spec(name: Seq<char>) -> Option<EosPreset> {
    if name == seq!['g', 'r', 'a', 'n', 'i', 't', 'e'] {
        Some(EosPreset::Granite)
    } else if name == seq!['b', 'a', 's', 'a', 'l', 't'] {
        Some(EosPreset::Basalt)
    } else if name == seq!['p', 'e', 'r', 'i', 'd', 'o', 't', 'i', 't', 'e'] {
        Some(EosPreset::Peridotite)
    } else if name == seq!['i', 'r', 'o', 'n'] {
        Some(EosPreset::Iron)
    } else {
        None
    }
}

/// The four materials whose Tillotson parameters are cited: granite, basalt, peridotite and iron.
pub open spec fn cited_eos_material(name: Seq<char>) -> bool {
    ||| name == seq!['g', 'r', 'a', 'n', 'i', 't', 'e']
    ||| name == seq!['b', 'a', 's', 'a', 'l', 't']
    ||| name == seq!['p', 'e', 'r', 'i', 'd', 'o', 't', 'i', 't', 'e']
    ||| name == seq!['i', 'r', 'o', 'n']
}

/// Only the four cited materials have a preset, each its own: every other name (water, ice, soil,
/// dirt, …) has none, so its caller falls back to contact-penalty stiffness.
pub proof fn lemma_only_cited_materials_have_presets(name: Seq<char>)
    ensures
        eos_preset_spec(name) is Some <==> cited_eos_material(name),
        eos_preset_spec(name) == Some(EosPreset::Granite) <==> name == seq!['g', 'r', 'a', 'n', 'i', 't', 'e'],
        eos_preset_spec(name) == Some(EosPreset::Basalt) <==> name == seq!['b', 'a', 's', 'a', 'l', 't'],
        eos_preset_spec(name) == Some(EosPreset::Peridotite) <==> name == seq![
            'p',
            'e',
            'r',
            'i',
            'd',
            'o',
            't',
            'i',
            't',
            'e',
        ],
        eos_preset_spec(name) == Some(EosPreset::Iron) <==> name == seq!['i', 'r', 'o', 'n'],
{
}

/// Look up the equation-of-state preset by the engine's material name.
pub fn eos_preset_for(name: &str) -> (p: Option<EosPreset>)
    ensures
        p == eos_preset_spec(name@),
        p == Some(EosPreset::Granite) <==> name@ == seq!['g', 'r', 'a', 'n', 'i', 't', 'e'],
        p == Some(EosPreset::Basalt) <==> name@ == seq!['b', 'a', 's', 'a', 'l', 't'],
        p == Some(EosPreset::Peridotite) <==> name@ == seq!['p', 'e', 'r', 'i', 'd', 'o', 't', 'i', 't', 'e'],
        p == Some(EosPreset::Iron) <==> name@ == seq!['i', 'r', 'o', 'n'],
        p is None <==> !cited_eos_material(name@),
{
    let n = String::from_str(name);
    let granite = String::from_str("granite");
    let basalt = String::from_str("basalt");
    let peridotite = String::from_str("peridotite");
    let iron = String::from_str("iron");
    proof {
        reveal_strlit("granite");
        reveal_strlit("basalt");
        reveal_strlit("peridotite");
        reveal_strlit("iron");
        assert(granite@ =~= seq!['g', 'r', 'a', 'n', 'i', 't', 'e']);
        assert(basalt@ =~= seq!['b', 'a', 's', 'a', 'l', 't']);
        assert(peridotite@ =~= seq!['p', 'e', 'r', 'i', 'd', 'o', 't', 'i', 't', 'e']);
        assert(iron@ =~= seq!['i', 'r', 'o', 'n']);
    }
    if n == granite {
        Some(EosPreset::Granite)
    } else if n == basalt {
        Some(EosPreset::Basalt)
    } else if n == peridotite {
        Some(EosPreset::Peridotite)
    } else if n == iron {
        Some(EosPreset::Iron)
    } else {
        None
    }
}

} // verus!
