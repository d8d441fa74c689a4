use vstd::prelude::*;

verus! {

/// A production recipe: the inputs it consumes, the outputs it yields, and
/// the labour it takes.
pub struct Task {
    pub inputs: Vec<(String, u32)>,
    pub outputs: Vec<(String, u32)>,
    pub work_points: u64,
}

/// A conversion of one good into another.
pub struct Recipe {
    from: String,
    to: String,
}

impl Recipe {
    pub fn new(from: &str, to: &str) -> (r: Recipe)
        ensures
            r.from()@ == from@,
            r.to()@ == to@,
    {
        Recipe { from: from.to_string(), to: to.to_string() }
    }

    pub closed spec fn from(&self) -> String {
        self.from
    }

    pub closed spec fn to(&self) -> String {
        self.to
    }
}

/// The recipes an actor knows.
pub struct Book {
    recipes: Vec<Recipe>,
}

impl Book {
    /// A book with no recipe.
    pub fn new() -> (r: Book)
        ensures
            r.recipe_count() == 0,
    {
        Book { recipes: Vec::new() }
    }

    pub closed spec fn recipe_count(&self) -> nat {
        self.recipes@.len()
    }
}

/// The tunable constants of the simulation.
#[derive(Clone, Copy, PartialEq, Eq, Structural, Debug)]
pub struct Config {
    /// How much of each task input an actor aims to keep, in percent of
    /// what one production cycle needs.
    pub safety_factor_percent: u32,
    /// Labour points gained per tick of work.
    pub progress_per_tick: u64,
    /// The price at which an actor lists a surplus unit.
    pub ask_price: i64,
}

impl Config {
    /// Keep two and a half times the inputs, gain four points per tick, and
    /// ask 500 per unit.
    pub fn standard() -> (r: Config)
        ensures
            r.safety_factor_percent == 250,
            r.progress_per_tick == 4,
            r.ask_price == 500,
    {
        Config { safety_factor_percent: 250, progress_per_tick: 4, ask_price: 500 }
    }
}

} // verus!
