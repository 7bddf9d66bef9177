use vstd::prelude::*;

verus! {

/// Access roles of the jar service. Code deployment roles are kept apart from
/// the operational ones.
#[derive(Copy, Clone, Debug, PartialEq, Eq, Hash)]
pub enum Roles {
    Oracle,
    ProductManager,
    FeeManager,
    Maintainer,
    StagingManager,
    UpgradeManager,
}

/// Every role, in declaration order.
pub open spec fn all_roles() -> Seq<Roles> {
    seq![
        Roles::Oracle,
        Roles::ProductManager,
        Roles::FeeManager,
        Roles::Maintainer,
        Roles::StagingManager,
        Roles::UpgradeManager,
    ]
}

impl Roles {
    /// All role variants, in declaration order.
    pub fn all() -> (roles: Vec<Roles>)
        ensures
            roles@ == all_roles(),
    {
        let v = vec![
            Roles::Oracle,
            Roles::ProductManager,
            Roles::FeeManager,
            Roles::Maintainer,
            Roles::StagingManager,
            Roles::UpgradeManager,
        ];
        assert(v@ =~= all_roles());
        v
    }
}

} // verus!
