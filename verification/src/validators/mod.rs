//! The per-category validators, and which one runs each category.
use vstd::prelude::*;
use crate::Category;

pub mod adapter;
pub mod grammar;
pub mod paths;
pub mod schema;
pub mod template;
pub mod walk;
pub mod workflow;

verus! {

/// The entry points of the validators: each category's `run`.
#[derive(Debug, Clone, Copy, PartialEq, Eq, Structural)]
pub enum Validator {
    /// [`schema::run`]
    Schema,
    /// [`template::run`]
    Template,
    /// [`workflow::run`]
    Workflow,
    /// [`adapter::run`]
    Adapter,
    /// [`grammar::run`]
    Grammar,
}

/// Which validator runs each category.
pub const DISPATCH: [(Category, Validator); 5] = [
    (Category::Schema, Validator::Schema),
    (Category::Template, Validator::Template),
    (Category::Workflow, Validator::Workflow),
    (Category::Adapter, Validator::Adapter),
    (Category::Grammar, Validator::Grammar),
];

/// The validator of a category.
pub open spec fn validator_of(c: Category) -> Validator {
    match c {
        Category::Schema => Validator::Schema,
        Category::Template => Validator::Template,
        Category::Workflow => Validator::Workflow,
        Category::Adapter => Validator::Adapter,
        Category::Grammar => Validator::Grammar,
    }
}

/// The validator the dispatch table gives for `category` (the first row
/// that names it).
pub fn validator(category: Category) -> (r: Option<Validator>)
    ensures
        r == Some(validator_of(category)),
{
    let table = DISPATCH;
    let mut i: usize = 0;
    while i < 5
        invariant
            i <= 5,
            table@ == seq![
                (Category::Schema, Validator::Schema),
                (Category::Template, Validator::Template),
                (Category::Workflow, Validator::Workflow),
                (Category::Adapter, Validator::Adapter),
                (Category::Grammar, Validator::Grammar),
            ],
            forall|k: int| 0 <= k < i ==> table@[k].0 != category,
        decreases 5 - i,
    {
        if table[i].0 == category {
            return Some(table[i].1);
        }
        i = i + 1;
    }
    None
}

/// Every category has exactly one row in the dispatch table.
pub proof fn law_dispatch_covers_each_category_once(c: Category)
    ensures
        exists|k: int| 0 <= k < 5 && (#[trigger] DISPATCH@[k]).0 == c,
        forall|j: int, k: int| 0 <= j < k < 5 ==> DISPATCH@[j].0 != DISPATCH@[k].0,
{
    assert(DISPATCH@[0].0 == Category::Schema);
    assert(DISPATCH@[1].0 == Category::Template);
    assert(DISPATCH@[2].0 == Category::Workflow);
    assert(DISPATCH@[3].0 == Category::Adapter);
    assert(DISPATCH@[4].0 == Category::Grammar);
}

} // verus!
