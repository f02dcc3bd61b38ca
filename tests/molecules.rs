use pytrace::molecule::MoleculeStructure;

#[test]
fn parse_known_names() {
    assert_eq!(MoleculeStructure::parse(&"water".to_string()), Some(MoleculeStructure::Water));
    assert_eq!(
        MoleculeStructure::parse(&"carbon dioxide".to_string()),
        Some(MoleculeStructure::CarbonDioxide)
    );
    assert_eq!(MoleculeStructure::parse(&"benzene".to_string()), Some(MoleculeStructure::Benzene));
    assert_eq!(
        MoleculeStructure::parse(&"cyclohexanol".to_string()),
        Some(MoleculeStructure::Cyclohexanol)
    );
}

#[test]
fn parse_unknown_name() {
    assert_eq!(MoleculeStructure::parse(&"Water".to_string()), None);
    assert_eq!(MoleculeStructure::parse(&"".to_string()), None);
}

#[test]
fn from_known_name() {
    assert_eq!(MoleculeStructure::from("methane".to_string()), MoleculeStructure::Methane);
    assert_eq!(MoleculeStructure::from("ethanol".to_string()), MoleculeStructure::Ethanol);
    assert_eq!(MoleculeStructure::from("dinitrogen".to_string()), MoleculeStructure::Dinitrogen);
}
