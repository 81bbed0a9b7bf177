//! Ready-made pairs of folder and name patterns, for the layouts other programs
//! expect.
use vstd::prelude::*;
use crate::model::DEFAULT_FOLDER_PATTERN;
use crate::naming::DEFAULT_NAME_PATTERN;
use crate::text::{ascii_lowercase, chars_of, same_chars, spec_ascii_lowercase, spec_trim, trim};

verus! {

/// A named layout: the folder pattern, the file name pattern, and what it is for.
#[derive(Debug, Clone, Copy, PartialEq, Eq)]
pub struct Preset {
    pub name: &'static str,
    pub folder: &'static str,
    pub file: &'static str,
    pub about: &'static str,
}

/// Every preset, in the order they are offered: a year folder holding month folders,
/// a folder per day, a folder per day and place, and the layouts that immich,
/// PhotoPrism and elodie expect.
pub open spec fn presets_spec() -> Seq<Preset> {
    seq![
        Preset {
            name: "plain",
            folder: DEFAULT_FOLDER_PATTERN,
            file: DEFAULT_NAME_PATTERN,
            about: "A year folder holding month folders. What eonsort does when nobody says otherwise.",
        },
        Preset {
            name: "day",
            folder: "%Y/%Y-%m-%d",
            file: DEFAULT_NAME_PATTERN,
            about: "A folder per day, named so it sorts the way it reads.",
        },
        Preset {
            name: "place",
            folder: "%Y/%Y-%m-%d/{city|region|country|\"unknown place\"}",
            file: DEFAULT_NAME_PATTERN,
            about: "A folder per day, split by where the pictures were taken. Needs a gazetteer.",
        },
        Preset {
            name: "immich",
            folder: "%Y/%Y-%m-%d",
            file: "%Y%m%d-%H%M%S-{original_stem}",
            about: "Day folders with the date in front of every name, which is what an immich import expects to walk.",
        },
        Preset {
            name: "photoprism",
            folder: "%Y/%m",
            file: DEFAULT_NAME_PATTERN,
            about: "The originals layout PhotoPrism indexes without being told anything.",
        },
        Preset {
            name: "elodie",
            folder: "%Y-%m-%b/{city|country|\"Unknown Location\"}",
            file: "%Y-%m-%d_%H-%M-%S-{original_stem}",
            about: "The tree elodie builds, for anyone moving an archive across without reshuffling it.",
        },
    ]

}

/// Every preset, in the order they are offered.
pub fn presets() -> (r: [Preset; 6])
    ensures
        r@ == presets_spec(),
{
    let r = [
        Preset {
            name: "plain",
            folder: DEFAULT_FOLDER_PATTERN,
            file: DEFAULT_NAME_PATTERN,
            about: "A year folder holding month folders. What eonsort does when nobody says otherwise.",
        },
        Preset {
            name: "day",
            folder: "%Y/%Y-%m-%d",
            file: DEFAULT_NAME_PATTERN,
            about: "A folder per day, named so it sorts the way it reads.",
        },
        Preset {
            name: "place",
            folder: "%Y/%Y-%m-%d/{city|region|country|\"unknown place\"}",
            file: DEFAULT_NAME_PATTERN,
            about: "A folder per day, split by where the pictures were taken. Needs a gazetteer.",
        },
        Preset {
            name: "immich",
            folder: "%Y/%Y-%m-%d",
            file: "%Y%m%d-%H%M%S-{original_stem}",
            about: "Day folders with the date in front of every name, which is what an immich import expects to walk.",
        },
        Preset {
            name: "photoprism",
            folder: "%Y/%m",
            file: DEFAULT_NAME_PATTERN,
            about: "The originals layout PhotoPrism indexes without being told anything.",
        },
        Preset {
            name: "elodie",
            folder: "%Y-%m-%b/{city|country|\"Unknown Location\"}",
            file: "%Y-%m-%d_%H-%M-%S-{original_stem}",
            about: "The tree elodie builds, for anyone moving an archive across without reshuffling it.",
        },
    ];
    assert(r@ =~= presets_spec());
    r
}

/// The preset named `name`, read without the white space around it and in any ASCII
/// case: the first preset whose name is that text, if there is one.
pub fn by_name(name: &str) -> (r: Option<Preset>)
    ensures
        match r {
            Some(p) => exists|i: int| 0 <= i < 6 && p == presets_spec()[i]
                && #[trigger] presets_spec()[i].name@ == spec_ascii_lowercase(spec_trim(name@)),
            None => forall|i: int| 0 <= i < 6 ==> #[trigger] presets_spec()[i].name@ != spec_ascii_lowercase(spec_trim(name@)),
        },
{
    let all = presets();
    let raw = chars_of(name);
    let wanted = ascii_lowercase(&trim(&raw));
    let mut i: usize = 0;
    while i < 6
        invariant
            i <= 6,
            all@ == presets_spec(),
            wanted@ == spec_ascii_lowercase(spec_trim(name@)),
            forall|j: int| 0 <= j < i ==> #[trigger] presets_spec()[j].name@ != wanted@,
        decreases 6 - i,
    {
        let candidate = chars_of(all[i].name);
        if same_chars(&candidate, &wanted) {
            return Some(all[i]);
        }
        i = i + 1;
    }
    None
}

/// The names of the presets, in order.
pub fn names() -> (r: Vec<&'static str>)
    ensures
        r@.len() == 6,
        forall|i: int| 0 <= i < 6 ==> #[trigger] r@[i] == presets_spec()[i].name,
{
    let all = presets();
    let mut r: Vec<&'static str> = Vec::new();
    let mut i: usize = 0;
    while i < 6
        invariant
            i <= 6,
            all@ == presets_spec(),
            r@.len() == i,
            forall|j: int| 0 <= j < i ==> #[trigger] r@[j] == presets_spec()[j].name,
        decreases 6 - i,
    {
        r.push(all[i].name);
        i = i + 1;
    }
    r
}


/// No two presets share a name, so a name picks one preset.
pub proof fn law_every_preset_has_a_name_of_its_own()
    ensures
        forall|i: int, j: int| 0 <= i < j < 6 ==> (#[trigger] presets_spec()[i]).name@ != (#[trigger] presets_spec()[j]).name@,
{
    reveal_strlit("plain");
    reveal_strlit("day");
    reveal_strlit("place");
    reveal_strlit("immich");
    reveal_strlit("photoprism");
    reveal_strlit("elodie");
    let n = presets_spec();
    assert(n[0].name@.len() == 5 && n[1].name@.len() == 3 && n[2].name@.len() == 5);
    assert(n[3].name@.len() == 6 && n[4].name@.len() == 10 && n[5].name@.len() == 6);
    assert(n[0].name@[3] != n[2].name@[3]);
    assert(n[3].name@[0] != n[5].name@[0]);
}

} // verus!
