//! Where files are looked for.

use vstd::prelude::*;

verus! {

/// A place where a file may be: a path, in a folder that is given or in the
/// current one.
#[derive(Clone, Copy, Debug)]
pub struct Candidate {
    pub in_folder: bool,
    pub path: &'static str,
}

/// Where the debug database of the game may be, in the order in which it is
/// looked for; the folder is that of the program.
pub fn pdb_candidates() -> (r: Vec<Candidate>)
    ensures
        r@ == seq![
            Candidate { in_folder: true, path: "factorio.pdb" },
            Candidate { in_folder: true, path: "bin/x64/factorio.pdb" },
            Candidate { in_folder: false, path: "factorio.pdb" },
            Candidate { in_folder: false, path: "bin/x64/factorio.pdb" },
        ],
{
    let mut r: Vec<Candidate> = Vec::new();
    r.push(Candidate { in_folder: true, path: "factorio.pdb" });
    r.push(Candidate { in_folder: true, path: "bin/x64/factorio.pdb" });
    r.push(Candidate { in_folder: false, path: "factorio.pdb" });
    r.push(Candidate { in_folder: false, path: "bin/x64/factorio.pdb" });
    r
}

/// Where the library that is injected may be; the folder is that of the
/// injector.
pub fn dll_candidates() -> (r: Vec<Candidate>)
    ensures
        r@ == seq![
            Candidate { in_folder: true, path: "factorio_3d.dll" },
            Candidate { in_folder: false, path: "target/release/factorio_3d.dll" },
            Candidate { in_folder: false, path: "target/debug/factorio_3d.dll" },
        ],
{
    let mut r: Vec<Candidate> = Vec::new();
    r.push(Candidate { in_folder: true, path: "factorio_3d.dll" });
    r.push(Candidate { in_folder: false, path: "target/release/factorio_3d.dll" });
    r.push(Candidate { in_folder: false, path: "target/debug/factorio_3d.dll" });
    r
}

/// Where the folder of models may be; the folder is that of the library, where
/// it is known.
pub fn models_candidates(folder_known: bool) -> (r: Vec<Candidate>)
    ensures
        r@ == if folder_known {
            seq![
                Candidate { in_folder: true, path: "models" },
                Candidate { in_folder: true, path: "../../models" },
                Candidate { in_folder: false, path: "models" },
            ]
        } else {
            seq![Candidate { in_folder: false, path: "models" }]
        },
{
    let mut r: Vec<Candidate> = Vec::new();
    if folder_known {
        r.push(Candidate { in_folder: true, path: "models" });
        r.push(Candidate { in_folder: true, path: "../../models" });
    }
    r.push(Candidate { in_folder: false, path: "models" });
    r
}

/// The first of several files that is there.
pub fn first_there(there: &Vec<bool>) -> (r: Option<usize>)
    ensures
        r is Some <==> there@.contains(true),
        r matches Some(i) ==> i < there@.len() && there@[i as int] && forall|j: int|
            0 <= j < i ==> !#[trigger] there@[j],
{
    let mut i: usize = 0;
    while i < there.len()
        invariant
            i <= there.len(),
            forall|j: int| 0 <= j < i ==> !#[trigger] there@[j],
        decreases there.len() - i,
    {
        if there[i] {
            assert(there@[i as int]);
            return Some(i);
        }
        i = i + 1;
    }
    None
}

} // verus!
