use vstd::prelude::*;

verus! {

/// The molecules that the scene library knows how to assemble.
#[derive(Clone, Copy, Debug, PartialEq, Eq, Structural)]
pub enum MoleculeStructure {
    Cyclohexanol,
    Water,
    Methane,
    Ethanol,
    CarbonDioxide,
    Dinitrogen,
    Benzene,
}

/// The structure that a name stands for, if any.
pub open spec fn structure_named(s: Seq<char>) -> Option<MoleculeStructure> {
    if s == "cyclohexanol"@ {
        Some(MoleculeStructure::Cyclohexanol)
    } else if s == "water"@ {
        Some(MoleculeStructure::Water)
    } else if s == "methane"@ {
        Some(MoleculeStructure::Methane)
    } else if s == "ethanol"@ {
        Some(MoleculeStructure::Ethanol)
    } else if s == "carbon dioxide"@ {
        Some(MoleculeStructure::CarbonDioxide)
    } else if s == "dinitrogen"@ {
        Some(MoleculeStructure::Dinitrogen)
    } else if s == "benzene"@ {
        Some(MoleculeStructure::Benzene)
    } else {
        None
    }
}

fn same_text(s: &String, lit: &str) -> (r: bool)
    ensures
        r == (s@ == lit@),
{
    let owned: String = lit.to_owned();
    *s == owned
}

impl MoleculeStructure {
    /// The structure that `s` names, or `None` for an unknown name.
    pub fn parse(s: &String) -> (r: Option<Self>)
        ensures
            r == structure_named(s@),
    {
        if same_text(s, "cyclohexanol") {
            Some(MoleculeStructure::Cyclohexanol)
        } else if same_text(s, "water") {
            Some(MoleculeStructure::Water)
        } else if same_text(s, "methane") {
            Some(MoleculeStructure::Methane)
        } else if same_text(s, "ethanol") {
            Some(MoleculeStructure::Ethanol)
        } else if same_text(s, "carbon dioxide") {
            Some(MoleculeStructure::CarbonDioxide)
        } else if same_text(s, "dinitrogen") {
            Some(MoleculeStructure::Dinitrogen)
        } else if same_text(s, "benzene") {
            Some(MoleculeStructure::Benzene)
        } else {
            None
        }
    }

    /// The structure that `s` names; `s` must be one of the known names.
    pub fn from(s: String) -> (r: Self)
        requires
            structure_named(s@) is Some,
        ensures
            structure_named(s@) == Some(r),
    {
        match Self::parse(&s) {
            Some(m) => m,
            None => MoleculeStructure::Water,
        }
    }
}

} // verus!
