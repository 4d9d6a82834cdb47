//! Curated encyclopedia slugs for the article source, each tagged with the
//! domain its article is routed to. Keter has no entries: meta-cognitive
//! topics are meant to emerge rather than be seeded.

use vstd::prelude::*;
use crate::domain::SephirotDomain;
use crate::topics::{count_in, distribution_of};

verus! {

/// Encyclopedia slugs with their domains, grouped by domain.
pub const SEED_TOPICS: [(&'static str, SephirotDomain); 95] = [
    // Chochmah
    ("Quantum_computing", SephirotDomain::Chochmah),
    ("Quantum_mechanics", SephirotDomain::Chochmah),
    ("Quantum_entanglement", SephirotDomain::Chochmah),
    ("General_relativity", SephirotDomain::Chochmah),
    ("Standard_Model", SephirotDomain::Chochmah),
    ("Supersymmetry", SephirotDomain::Chochmah),
    ("String_theory", SephirotDomain::Chochmah),
    ("Dark_matter", SephirotDomain::Chochmah),
    ("Higgs_boson", SephirotDomain::Chochmah),
    ("Thermodynamics", SephirotDomain::Chochmah),
    ("Electromagnetic_radiation", SephirotDomain::Chochmah),
    ("Wave-particle_duality", SephirotDomain::Chochmah),
    ("Black_hole", SephirotDomain::Chochmah),
    ("Big_Bang", SephirotDomain::Chochmah),
    ("Solar_System", SephirotDomain::Chochmah),
    ("Exoplanet", SephirotDomain::Chochmah),
    ("Milky_Way", SephirotDomain::Chochmah),

    // Binah
    ("Golden_ratio", SephirotDomain::Binah),
    ("Fibonacci_sequence", SephirotDomain::Binah),
    ("Group_theory", SephirotDomain::Binah),
    ("Topology", SephirotDomain::Binah),
    ("Game_theory", SephirotDomain::Binah),
    ("Cryptography", SephirotDomain::Binah),
    ("Information_theory", SephirotDomain::Binah),
    ("Graph_theory", SephirotDomain::Binah),
    ("Bayesian_statistics", SephirotDomain::Binah),
    ("Chaos_theory", SephirotDomain::Binah),

    // Hod
    ("Artificial_intelligence", SephirotDomain::Hod),
    ("Machine_learning", SephirotDomain::Hod),
    ("Neural_network", SephirotDomain::Hod),
    ("Deep_learning", SephirotDomain::Hod),
    ("Natural_language_processing", SephirotDomain::Hod),
    ("Computer_vision", SephirotDomain::Hod),
    ("Blockchain", SephirotDomain::Hod),
    ("Distributed_computing", SephirotDomain::Hod),
    ("Algorithm", SephirotDomain::Hod),
    ("Turing_machine", SephirotDomain::Hod),
    ("Compiler", SephirotDomain::Hod),
    ("Operating_system", SephirotDomain::Hod),
    ("Linguistics", SephirotDomain::Hod),
    ("Semantics", SephirotDomain::Hod),
    ("Syntax", SephirotDomain::Hod),

    // Yesod
    ("Consciousness", SephirotDomain::Yesod),
    ("Neuroscience", SephirotDomain::Yesod),
    ("Integrated_information_theory", SephirotDomain::Yesod),
    ("Global_workspace_theory", SephirotDomain::Yesod),
    ("Neuroplasticity", SephirotDomain::Yesod),
    ("Memory", SephirotDomain::Yesod),
    ("Cognitive_science", SephirotDomain::Yesod),
    ("Artificial_general_intelligence", SephirotDomain::Yesod),
    ("Free_energy_principle", SephirotDomain::Yesod),
    ("Theory_of_mind", SephirotDomain::Yesod),
    ("Evolution", SephirotDomain::Yesod),
    ("DNA", SephirotDomain::Yesod),
    ("Cell_(biology)", SephirotDomain::Yesod),
    ("Genetics", SephirotDomain::Yesod),
    ("Photosynthesis", SephirotDomain::Yesod),
    ("Psychology", SephirotDomain::Yesod),
    ("Cognitive_bias", SephirotDomain::Yesod),

    // Tiferet
    ("Philosophy_of_mind", SephirotDomain::Tiferet),
    ("Epistemology", SephirotDomain::Tiferet),
    ("Logic", SephirotDomain::Tiferet),
    ("Ontology", SephirotDomain::Tiferet),
    ("Existentialism", SephirotDomain::Tiferet),
    ("Phenomenology_(philosophy)", SephirotDomain::Tiferet),
    ("Philosophy_of_science", SephirotDomain::Tiferet),
    ("Emergence", SephirotDomain::Tiferet),
    ("Complexity_theory", SephirotDomain::Tiferet),

    // Gevurah
    ("Ethics", SephirotDomain::Gevurah),

    // Chesed
    ("History_of_science", SephirotDomain::Chesed),
    ("Scientific_revolution", SephirotDomain::Chesed),
    ("Industrial_Revolution", SephirotDomain::Chesed),
    ("Internet", SephirotDomain::Chesed),
    ("World_Wide_Web", SephirotDomain::Chesed),

    // Netzach
    ("Economics", SephirotDomain::Netzach),
    ("Cryptocurrency", SephirotDomain::Netzach),
    ("Decentralized_finance", SephirotDomain::Netzach),
    ("Supply_and_demand", SephirotDomain::Netzach),
    ("Monetary_policy", SephirotDomain::Netzach),
    ("Decision-making", SephirotDomain::Netzach),

    // Malkuth
    ("Electrical_engineering", SephirotDomain::Malkuth),
    ("Semiconductor", SephirotDomain::Malkuth),
    ("Transistor", SephirotDomain::Malkuth),
    ("Integrated_circuit", SephirotDomain::Malkuth),
    ("Immune_system", SephirotDomain::Malkuth),
    ("Vaccine", SephirotDomain::Malkuth),
    ("CRISPR", SephirotDomain::Malkuth),
    ("Nuclear_fusion", SephirotDomain::Malkuth),
    ("Renewable_energy", SephirotDomain::Malkuth),
    ("Entropy", SephirotDomain::Malkuth),
    ("Chemistry", SephirotDomain::Malkuth),
    ("Periodic_table", SephirotDomain::Malkuth),
    ("Chemical_bond", SephirotDomain::Malkuth),
    ("Organic_chemistry", SephirotDomain::Malkuth),
    ("Ecology", SephirotDomain::Malkuth),
];

/// How many seed topics are routed to each domain, indexed by the domain's
/// position in the canonical order.
pub fn distribution() -> (d: [usize; 10])
    ensures
        forall|i: int| 0 <= i < 10 ==> d@[i] == count_in(SEED_TOPICS@, i as nat),
{
    distribution_of(&SEED_TOPICS)
}

} // verus!
