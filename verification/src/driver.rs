//! The experiment driver: sweeps tree densities, runs repeated trials,
//! averages the burned counts per density, and picks the density that
//! leaves the most trees standing.
//!
//! All bookkeeping is integer-exact: a trial contributes its burned
//! count, a density's average is kept as the pair of the summed burned
//! counts and the number of trials, and averages are compared by cross
//! multiplication, so no rounding ever enters the choice of the optimal
//! density.

use vstd::prelude::*;
use crate::forest::{Forest, alive_target, lemma_alive_target_bounds, lemma_count_pos, lemma_count_split_k, lemma_count_update, lemma_full_grid_burns, lemma_grid_index_bounds, lemma_index_to_coordinate};
use crate::tree::TreeState;

verus! {

/// Which of the two seeding strategies a trial uses.
#[derive(Clone, Copy, Debug, PartialEq, Eq, Structural)]
pub enum SeederKind {
    /// Mark exactly the target number of cells, then shuffle the grid.
    ExactCount,
    /// Walk the grid once, drawing each cell with the probability that
    /// sampling without replacement still owes.
    IndependentProbability,
}

/// Why a configuration was rejected before any trial ran.
#[derive(Clone, Copy, Debug, PartialEq, Eq, Structural)]
pub enum ConfigError {
    /// The grid needs at least one row.
    NonPositiveRows,
    /// The grid needs at least one column.
    NonPositiveCols,
    /// The sweep needs a positive density increment.
    NonPositiveDensityStep,
    /// Averages need at least one trial per density.
    ZeroTrials,
    /// The percentage arithmetic must fit the machine word.
    GridTooLarge,
}

/// The experiment configuration: grid dimensions, the density increment
/// of the sweep in percent, how many trials to average per density, and
/// which seeding strategy the trials use.
#[derive(Clone, Copy, Debug, PartialEq, Eq, Structural)]
pub struct Config {
    pub rows: usize,
    pub cols: usize,
    pub density_step: usize,
    pub trials: usize,
    pub seeder: SeederKind,
}

impl Config {
    /// What the driver relies on: positive dimensions and step, at
    /// least one trial, and a grid small enough that `100 * cells + 99`
    /// fits a machine word.
    pub open spec fn valid(self) -> bool {
        &&& self.rows >= 1
        &&& self.cols >= 1
        &&& self.density_step >= 1
        &&& self.trials >= 1
        &&& 100 * (self.rows * self.cols) + 99 <= usize::MAX
    }

    /// Builds a configuration, rejecting exactly the inputs the driver
    /// cannot run: a zero dimension, a zero step, a zero trial count,
    /// or a grid too large for the percentage arithmetic.
    pub fn new(rows: usize, cols: usize, density_step: usize, trials: usize, seeder: SeederKind) -> (r: Result<
        Config,
        ConfigError,
    >)
        ensures
            r is Ok <==> (rows >= 1 && cols >= 1 && density_step >= 1 && trials >= 1 && 100 * (
            rows * cols) + 99 <= usize::MAX),
            r matches Ok(c) ==> c.rows == rows && c.cols == cols && c.density_step == density_step
                && c.trials == trials && c.seeder == seeder && c.valid(),
            rows == 0 ==> r == Err::<Config, ConfigError>(ConfigError::NonPositiveRows),
            rows >= 1 && cols == 0 ==> r == Err::<Config, ConfigError>(ConfigError::NonPositiveCols),
            rows >= 1 && cols >= 1 && density_step == 0 ==> r == Err::<Config, ConfigError>(
                ConfigError::NonPositiveDensityStep,
            ),
            rows >= 1 && cols >= 1 && density_step >= 1 && trials == 0 ==> r == Err::<
                Config,
                ConfigError,
            >(ConfigError::ZeroTrials),
            r is Err && rows >= 1 && cols >= 1 && density_step >= 1 && trials >= 1 ==> r == Err::<
                Config,
                ConfigError,
            >(ConfigError::GridTooLarge),
    {
        if rows == 0 {
            return Err(ConfigError::NonPositiveRows);
        }
        if cols == 0 {
            return Err(ConfigError::NonPositiveCols);
        }
        if density_step == 0 {
            return Err(ConfigError::NonPositiveDensityStep);
        }
        if trials == 0 {
            return Err(ConfigError::ZeroTrials);
        }
        let total = match rows.checked_mul(cols) {
            Some(t) => t,
            None => {
                return Err(ConfigError::GridTooLarge);
            },
        };
        match total.checked_mul(100) {
            Some(t100) => {
                if t100 <= usize::MAX - 99 {
                    Ok(Config { rows, cols, density_step, trials, seeder })
                } else {
                    Err(ConfigError::GridTooLarge)
                }
            },
            None => Err(ConfigError::GridTooLarge),
        }
    }
}

/// What one trial reports: the density it ran at and how many trees
/// burned down.
#[derive(Clone, Copy, Debug, PartialEq, Eq, Structural)]
pub struct TrialRecord {
    pub density: usize,
    pub burned: usize,
}

/// One full trial: a fresh grid, seeding at `density` percent, one
/// random ignition, and propagation until the fire dies out. Returns
/// how many trees burned, or `None` when seeding left no living tree
/// (a zero target), since igniting an empty forest is an error that
/// the driver skips rather than averages in as a burn count.
pub fn run_trial(
    rows: usize,
    cols: usize,
    density: usize,
    seeder: SeederKind,
    rng: &mut rand::rngs::StdRng,
) -> (r: Option<usize>)
    requires
        rows >= 1,
        cols >= 1,
        density <= 100,
        100 * (rows * cols) + 99 <= usize::MAX,
    ensures
        r is Some <==> alive_target(density as int, (rows * cols) as int) >= 1,
        r matches Some(b) ==> 1 <= b <= alive_target(density as int, (rows * cols) as int),
        density >= 1 ==> r is Some,
        alive_target(density as int, (rows * cols) as int) == (rows * cols) as int ==> (r matches
            Some(b) && b == (rows * cols) as int),
{
    proof {
        assert(1 <= (rows as int) * (cols as int)) by (nonlinear_arith)
            requires
                rows >= 1,
                cols >= 1,
        ;
        lemma_alive_target_bounds(density as int, (rows * cols) as int);
    }
    let mut forest = Forest::new(rows, cols);
    match seeder {
        SeederKind::ExactCount => forest.create_alive_trees(density, rng),
        SeederKind::IndependentProbability => forest.create_alive_trees_sampled(density, rng),
    }
    let ghost seeded = forest;
    let ignited = forest.fire_random_tree(rng);
    match ignited {
        Err(_) => None,
        Ok(()) => {
            let ghost fired = forest;
            let ghost pstar = choose|p: (usize, usize)|
                seeded.in_bounds_at(p) && seeded.cell(p) == TreeState::Alive && fired.data@
                    == seeded.data@.update(seeded.index_of(p), TreeState::Burned)
                    && fired.frontier() == seq![p] && fired.burned == seeded.burned + 1;
            proof {
                lemma_grid_index_bounds(
                    pstar.0 as int,
                    pstar.1 as int,
                    seeded.rows(),
                    seeded.cols(),
                );
                lemma_count_update(
                    seeded.data@,
                    seeded.index_of(pstar),
                    TreeState::Burned,
                    TreeState::Alive,
                );
            }
            forest.propagate();
            proof {
                if alive_target(density as int, (rows * cols) as int) == (rows * cols) as int {
                    // every cell was seeded alive, so the finished fire
                    // has reached everything
                    assert forall|a: (usize, usize)| fired.in_bounds_at(a) implies fired.cell(a)
                        != TreeState::Empty by {
                        lemma_grid_index_bounds(
                            a.0 as int,
                            a.1 as int,
                            seeded.rows(),
                            seeded.cols(),
                        );
                        if seeded.cell(a) == TreeState::Empty {
                            lemma_count_pos(seeded.data@, seeded.index_of(a), TreeState::Empty);
                        }
                    }
                    assert(fired.cell(pstar) == TreeState::Burned);
                    assert(forest.cell(pstar) == TreeState::Burned);
                    assert forall|a: (usize, usize)| forest.in_bounds_at(a) implies forest.cell(a)
                        != TreeState::Empty by {
                        assert(fired.cell(a) != TreeState::Empty);
                    }
                    assert forall|q: (usize, usize)| forest.in_bounds_at(q) implies forest.cell(q)
                        == TreeState::Burned by {
                        lemma_full_grid_burns(forest, pstar, q);
                    }
                    assert forall|j: int| 0 <= j < forest.data@.len() implies forest.data@[j]
                        == TreeState::Burned by {
                        lemma_index_to_coordinate(forest, j);
                        let a = choose|a: (usize, usize)|
                            forest.in_bounds_at(a) && forest.index_of(a) == j
                                && #[trigger] forest.cell(a) == forest.data@[j];
                    }
                    lemma_count_split_k(forest.data@, forest.data@.len() as int, TreeState::Burned);
                }
            }
            Some(forest.burned)
        },
    }
}

/// How many densities a sweep with the given step visits: the
/// multiples of `step` up to 100 percent.
pub open spec fn sweep_points(step: int) -> int {
    100int / step
}

/// Where the sweep stores trial `t` of round `a`: rounds are laid out
/// one after the other, each holding one trial per density.
pub open spec fn sweep_slot(step: int, a: int, t: int) -> int {
    a * sweep_points(step) + t
}

/// The density of the sweep's point number `t`, counting from zero.
pub open spec fn sweep_density(step: int, t: int) -> int {
    step * (t + 1)
}

/// Whether `d` is one of the densities a sweep with the given step
/// visits. Kept opaque so that reasoning about whole series does not
/// have to unfold it at every entry.
#[verifier::opaque]
pub open spec fn is_sweep_density(step: int, d: usize) -> bool {
    exists|t: int| 0 <= t < sweep_points(step) && d == #[trigger] sweep_density(step, t)
}

/// Sweeps the densities `step, 2 * step, ...` up to 100 percent; at
/// each one, runs `cfg.trials` independent trials and records every
/// trial's burned count under its density. Densities are visited in
/// order within each round, and every trial of a positive density
/// ignites, so no trial is skipped and the counts come out exact.
pub fn run_sweep(cfg: &Config, rng: &mut rand::rngs::StdRng) -> (data: Vec<TrialRecord>)
    requires
        cfg.valid(),
    ensures
        data@.len() == cfg.trials * sweep_points(cfg.density_step as int),
        forall|a: int, t: int| #![trigger sweep_slot(cfg.density_step as int, a, t)]
            0 <= a < cfg.trials && 0 <= t < sweep_points(cfg.density_step as int) ==> data@[
                sweep_slot(cfg.density_step as int, a, t)].density == cfg.density_step * (t + 1),
        forall|j: int| #![trigger data@[j]]
            0 <= j < data@.len() ==> 1 <= data@[j].density <= 100 && 1 <= data@[j].burned
                <= alive_target(data@[j].density as int, (cfg.rows * cfg.cols) as int) && (data@[
            j].density == 100 ==> data@[j].burned == cfg.rows * cfg.cols) && (exists|t: int|
                0 <= t < sweep_points(cfg.density_step as int) && data@[j].density
                    == #[trigger] sweep_density(cfg.density_step as int, t)),
        forall|d: usize, t: int|
            #![trigger count_for(data@, d), sweep_density(cfg.density_step as int, t)]
            0 <= t < sweep_points(cfg.density_step as int) && d == sweep_density(
                cfg.density_step as int,
                t,
            ) ==> count_for(data@, d) == cfg.trials,
{
    let step = cfg.density_step;
    let ndens = 100 / step;
    proof {
        vstd::arithmetic::div_mod::lemma_fundamental_div_mod(100, step as int);
        vstd::arithmetic::div_mod::lemma_mod_division_less_than_divisor(100, step as int);
        vstd::arithmetic::div_mod::lemma_div_pos_is_pos(100, step as int);
    }
    let mut data: Vec<TrialRecord> = Vec::new();
    let mut a: usize = 0;
    while a < cfg.trials
        invariant
            cfg.valid(),
            step == cfg.density_step,
            ndens as int == sweep_points(step as int),
            (step as int) * (ndens as int) <= 100,
            a <= cfg.trials,
            data@.len() == a * ndens,
            forall|a2: int, t2: int| #![trigger sweep_slot(step as int, a2, t2)]
                0 <= a2 < a && 0 <= t2 < ndens ==> data@[sweep_slot(step as int, a2, t2)].density
                    == step * (t2 + 1),
            forall|j: int| #![trigger data@[j]]
                0 <= j < data@.len() ==> 1 <= data@[j].density <= 100 && 1 <= data@[j].burned
                    <= alive_target(data@[j].density as int, (cfg.rows * cfg.cols) as int) && (
                data@[j].density == 100 ==> data@[j].burned == cfg.rows * cfg.cols) && (
                exists|t2: int|
                    0 <= t2 < ndens && data@[j].density == #[trigger] sweep_density(
                        step as int,
                        t2,
                    )),
            forall|d: usize, t2: int|
                #![trigger count_for(data@, d), sweep_density(step as int, t2)]
                0 <= t2 < ndens && d == sweep_density(step as int, t2) ==> count_for(data@, d)
                    == a,
        decreases cfg.trials - a,
    {
        let mut density = step;
        let mut t: usize = 0;
        while t < ndens
            invariant
                cfg.valid(),
                step == cfg.density_step,
                ndens as int == sweep_points(step as int),
                (step as int) * (ndens as int) <= 100,
                a < cfg.trials,
                t <= ndens,
                density >= 1,
                density as int == (step as int) * (t as int + 1),
                data@.len() == a * ndens + t,
                forall|a2: int, t2: int| #![trigger sweep_slot(step as int, a2, t2)]
                    0 <= a2 < a && 0 <= t2 < ndens ==> data@[sweep_slot(step as int, a2, t2)].density
                    == step * (t2 + 1),
                forall|t2: int| #![trigger sweep_slot(step as int, a as int, t2)]
                    0 <= t2 < t ==> data@[sweep_slot(step as int, a as int, t2)].density == step * (
                    t2 + 1),
                forall|j: int| #![trigger data@[j]]
                    0 <= j < data@.len() ==> 1 <= data@[j].density <= 100 && 1 <= data@[j].burned
                        <= alive_target(data@[j].density as int, (cfg.rows * cfg.cols) as int) && (
                    data@[j].density == 100 ==> data@[j].burned == cfg.rows * cfg.cols) && (
                    exists|t2: int|
                    0 <= t2 < ndens && data@[j].density == #[trigger] sweep_density(
                        step as int,
                        t2,
                    )),
                forall|d: usize, t2: int|
                    #![trigger count_for(data@, d), sweep_density(step as int, t2)]
                    0 <= t2 < ndens && d == sweep_density(step as int, t2) ==> count_for(data@, d)
                        == a + (if t2 < t {
                        1int
                    } else {
                        0int
                    }),
            decreases ndens - t,
        {
            proof {
                vstd::arithmetic::mul::lemma_mul_inequality(
                    t as int + 1,
                    ndens as int,
                    step as int,
                );
                vstd::arithmetic::mul::lemma_mul_is_commutative(t as int + 1, step as int);
                vstd::arithmetic::mul::lemma_mul_is_commutative(ndens as int, step as int);
            }
            proof {
                if density == 100 {
                    lemma_alive_target_bounds(100, (cfg.rows * cfg.cols) as int);
                }
            }
            let burned = match run_trial(cfg.rows, cfg.cols, density, cfg.seeder, rng) {
                Some(b) => b,
                None => 0,
            };
            let ghost before_push = data@;
            data.push(TrialRecord { density, burned });
            proof {
                assert(density as int == sweep_density(step as int, t as int));
                assert forall|d: usize, t2: int|
                    0 <= t2 < ndens && d == #[trigger] sweep_density(step as int, t2)
                        implies #[trigger] count_for(data@, d) == a + (if t2 < t + 1 {
                        1int
                    } else {
                        0int
                    }) by {
                    lemma_group_push(before_push, TrialRecord { density, burned }, d);
                    if t2 != t {
                        assert((step as int) * (t2 + 1) != (step as int) * (t as int + 1))
                            by (nonlinear_arith)
                            requires
                                step >= 1,
                                t2 != t as int,
                        ;
                    }
                }
                assert forall|a2: int, t2: int|
                    0 <= a2 < a && 0 <= t2 < ndens implies 0 <= #[trigger] sweep_slot(
                    step as int,
                    a2,
                    t2,
                ) < data@.len() - 1 by {
                    vstd::arithmetic::mul::lemma_mul_inequality(a2 + 1, a as int, ndens as int);
                    assert((a2 + 1) * (ndens as int) == a2 * (ndens as int) + (ndens as int))
                        by (nonlinear_arith);
                    assert(a2 * (ndens as int) >= 0) by (nonlinear_arith)
                        requires
                            a2 >= 0,
                            ndens >= 0,
                    ;
                }
            }
            proof {
                vstd::arithmetic::mul::lemma_mul_inequality(1int, ndens as int, step as int);
                assert((step as int) * (t as int + 2) == (step as int) * (t as int + 1) + (
                step as int)) by (nonlinear_arith);
            }
            t = t + 1;
            density = density + step;
        }
        proof {
            assert((a as int + 1) * (ndens as int) == (a as int) * (ndens as int)
                + ndens as int) by (nonlinear_arith);
        }
        a = a + 1;
    }
    data
}

/// How many records of `data` ran at density `d`.
pub open spec fn count_for(data: Seq<TrialRecord>, d: usize) -> nat
    decreases data.len(),
{
    if data.len() == 0 {
        0
    } else {
        count_for(data.drop_last(), d) + if data.last().density == d {
            1nat
        } else {
            0nat
        }
    }
}

/// The summed burned counts of the records of `data` that ran at
/// density `d`.
pub open spec fn sum_for(data: Seq<TrialRecord>, d: usize) -> nat
    decreases data.len(),
{
    if data.len() == 0 {
        0
    } else {
        sum_for(data.drop_last(), d) + if data.last().density == d {
            data.last().burned as nat
        } else {
            0nat
        }
    }
}

/// Extending a prefix by one record moves only that record's group.
pub proof fn lemma_group_take_step(data: Seq<TrialRecord>, i: int, d: usize)
    requires
        0 <= i < data.len(),
    ensures
        count_for(data.take(i + 1), d) == count_for(data.take(i), d) + if data[i].density == d {
            1nat
        } else {
            0nat
        },
        sum_for(data.take(i + 1), d) == sum_for(data.take(i), d) + if data[i].density == d {
            data[i].burned as nat
        } else {
            0nat
        },
{
    assert(data.take(i + 1).drop_last() =~= data.take(i));
    assert(data.take(i + 1).last() == data[i]);
}

/// Appending one record moves only that record's group.
pub proof fn lemma_group_push(data: Seq<TrialRecord>, rec: TrialRecord, d: usize)
    ensures
        count_for(data.push(rec), d) == count_for(data, d) + if rec.density == d {
            1nat
        } else {
            0nat
        },
        sum_for(data.push(rec), d) == sum_for(data, d) + if rec.density == d {
            rec.burned as nat
        } else {
            0nat
        },
{
    assert(data.push(rec).drop_last() =~= data);
}

/// A group is never larger than the data.
pub proof fn lemma_count_for_le_len(data: Seq<TrialRecord>, d: usize)
    ensures
        count_for(data, d) <= data.len(),
    decreases data.len(),
{
    if data.len() > 0 {
        lemma_count_for_le_len(data.drop_last(), d);
    }
}

/// A group's sum only grows as the data grows.
pub proof fn lemma_sum_for_prefix(data: Seq<TrialRecord>, i: int, d: usize)
    requires
        0 <= i <= data.len(),
    ensures
        sum_for(data.take(i), d) <= sum_for(data, d),
    decreases data.len() - i,
{
    if i == data.len() {
        assert(data.take(i) =~= data);
    } else {
        lemma_group_take_step(data, i, d);
        lemma_sum_for_prefix(data, i + 1, d);
    }
}

/// A density with a nonempty group occurs in the data.
pub proof fn lemma_count_for_pos(data: Seq<TrialRecord>, d: usize)
    requires
        count_for(data, d) >= 1,
    ensures
        exists|j: int| 0 <= j < data.len() && #[trigger] data[j].density == d,
    decreases data.len(),
{
    if data.last().density == d {
        assert(data[data.len() - 1].density == d);
    } else {
        lemma_count_for_pos(data.drop_last(), d);
        let j = choose|j: int|
            0 <= j < data.drop_last().len() && #[trigger] data.drop_last()[j].density == d;
        assert(data[j].density == d);
    }
}

/// An empty group sums to zero.
pub proof fn lemma_sum_for_empty_group(data: Seq<TrialRecord>, d: usize)
    requires
        count_for(data, d) == 0,
    ensures
        sum_for(data, d) == 0,
    decreases data.len(),
{
    if data.len() > 0 {
        lemma_sum_for_empty_group(data.drop_last(), d);
    }
}

/// Every record of density `d` burning at least `low` trees bounds the
/// group's sum from below by `low` per trial.
pub proof fn lemma_sum_for_floor(data: Seq<TrialRecord>, d: usize, low: int)
    requires
        low >= 0,
        forall|j: int| #![trigger data[j]]
            0 <= j < data.len() && data[j].density == d ==> data[j].burned >= low,
    ensures
        sum_for(data, d) >= low * count_for(data, d),
    decreases data.len(),
{
    if data.len() == 0 {
        assert(low * count_for(data, d) == 0) by (nonlinear_arith)
            requires
                count_for(data, d) == 0,
        ;
    } else {
        assert(forall|j: int| #![trigger data.drop_last()[j]]
            0 <= j < data.drop_last().len() && data.drop_last()[j].density == d
                ==> data.drop_last()[j].burned >= low);
        lemma_sum_for_floor(data.drop_last(), d, low);
        if data.last().density == d {
            assert(data[data.len() - 1].burned >= low);
        }
        assert(low * (count_for(data.drop_last(), d) + 1) == low * count_for(data.drop_last(), d)
            + low) by (nonlinear_arith);
    }
}

/// One density's averaged result: the burned counts of its trials are
/// kept as the exact pair of their sum and their number, whose
/// quotient is the average burned count.
#[derive(Clone, Copy, Debug, PartialEq, Eq, Structural)]
pub struct AvgRecord {
    pub density: usize,
    pub burned_sum: usize,
    pub trials: usize,
}

/// Whether some entry of `avg` is for density `d`.
pub open spec fn has_density(avg: Seq<AvgRecord>, d: usize) -> bool {
    exists|k: int| 0 <= k < avg.len() && #[trigger] avg[k].density == d
}

/// Groups trial records by exact density key: one output entry per
/// distinct density, holding the sum of that density's burned counts
/// and the number of its trials, in ascending density order. The
/// average burned count of a density is the quotient of the pair,
/// which stays exact here rather than being rounded.
pub fn calculate_avg_data(data: &Vec<TrialRecord>) -> (avg: Vec<AvgRecord>)
    requires
        forall|d: usize| sum_for(data@, d) <= usize::MAX,
    ensures
        forall|k: int| #![trigger avg@[k]]
            0 <= k < avg@.len() ==> avg@[k].trials == count_for(data@, avg@[k].density)
                && avg@[k].burned_sum == sum_for(data@, avg@[k].density) && avg@[k].trials >= 1,
        forall|k1: int, k2: int|
            0 <= k1 < k2 < avg@.len() ==> avg@[k1].density < avg@[k2].density,
        forall|j: int| #![trigger data@[j]]
            0 <= j < data@.len() ==> has_density(avg@, data@[j].density),
{
    let mut avg: Vec<AvgRecord> = Vec::new();
    let mut i: usize = 0;
    while i < data.len()
        invariant
            i <= data@.len(),
            forall|d: usize| sum_for(data@, d) <= usize::MAX,
            forall|k: int| #![trigger avg@[k]]
                0 <= k < avg@.len() ==> avg@[k].trials == count_for(
                    data@.take(i as int),
                    avg@[k].density,
                ) && avg@[k].burned_sum == sum_for(data@.take(i as int), avg@[k].density)
                    && avg@[k].trials >= 1,
            forall|k1: int, k2: int|
                0 <= k1 < k2 < avg@.len() ==> avg@[k1].density < avg@[k2].density,
            forall|j: int| #![trigger data@[j]]
                0 <= j < i ==> has_density(avg@, data@[j].density),
        decreases data@.len() - i,
    {
        let d = data[i].density;
        let b = data[i].burned;
        let ghost old_avg = avg@;
        let mut pos: usize = 0;
        while pos < avg.len() && avg[pos].density < d
            invariant
                pos <= avg@.len(),
                avg@ == old_avg,
                forall|k: int| 0 <= k < pos ==> old_avg[k].density < d,
            decreases avg@.len() - pos,
        {
            pos = pos + 1;
        }
        let hit = pos < avg.len() && avg[pos].density == d;
        proof {
            lemma_group_take_step(data@, i as int, d);
            assert forall|k: int| 0 <= k < old_avg.len() && old_avg[k].density != d implies
                count_for(data@.take(i as int + 1), old_avg[k].density) == count_for(
                data@.take(i as int),
                old_avg[k].density,
            ) && sum_for(data@.take(i as int + 1), old_avg[k].density) == sum_for(
                data@.take(i as int),
                old_avg[k].density,
            ) by {
                lemma_group_take_step(data@, i as int, old_avg[k].density);
            }
            if !hit {
                if has_density(old_avg, d) {
                    let k = choose|k: int| 0 <= k < old_avg.len() && old_avg[k].density == d;
                    assert(k >= pos);
                    assert(old_avg[pos as int].density <= old_avg[k].density);
                    assert(false);
                }
                if count_for(data@.take(i as int), d) >= 1 {
                    lemma_count_for_pos(data@.take(i as int), d);
                    let j = choose|j: int|
                        0 <= j < data@.take(i as int).len() && #[trigger] data@.take(
                            i as int,
                        )[j].density == d;
                    assert(data@[j].density == d);
                    assert(has_density(old_avg, d));
                    assert(false);
                }
                lemma_sum_for_empty_group(data@.take(i as int), d);
            }
        }
        if hit {
            let existing = avg[pos];
            proof {
                lemma_count_for_le_len(data@.take(i as int), d);
                lemma_sum_for_prefix(data@, i as int + 1, d);
            }
            avg.set(
                pos,
                AvgRecord {
                    density: d,
                    burned_sum: existing.burned_sum + b,
                    trials: existing.trials + 1,
                },
            );
            proof {
                assert forall|d2: usize| has_density(old_avg, d2) implies has_density(
                    avg@,
                    d2,
                ) by {
                    let k = choose|k: int| 0 <= k < old_avg.len() && old_avg[k].density == d2;
                    assert(avg@[k].density == d2);
                }
                assert(avg@[pos as int].density == d);
                assert(has_density(avg@, d));
            }
        } else {
            proof {
                lemma_sum_for_prefix(data@, i as int + 1, d);
                lemma_count_for_le_len(data@.take(i as int + 1), d);
            }
            avg.insert(pos, AvgRecord { density: d, burned_sum: b, trials: 1 });
            proof {
                assert forall|d2: usize| has_density(old_avg, d2) implies has_density(
                    avg@,
                    d2,
                ) by {
                    let k = choose|k: int| 0 <= k < old_avg.len() && old_avg[k].density == d2;
                    if k < pos {
                        assert(avg@[k].density == d2);
                    } else {
                        assert(avg@[k + 1].density == d2);
                    }
                }
                assert(avg@[pos as int].density == d);
                assert(has_density(avg@, d));
            }
        }
        i = i + 1;
    }
    proof {
        assert(data@.take(data@.len() as int) =~= data@);
    }
    avg
}

/// Every record of density `d` burning at most `cap` trees bounds the
/// group's sum by `cap` per trial.
pub proof fn lemma_sum_for_cap(data: Seq<TrialRecord>, d: usize, cap: int)
    requires
        cap >= 0,
        forall|j: int| #![trigger data[j]]
            0 <= j < data.len() && data[j].density == d ==> data[j].burned <= cap,
    ensures
        sum_for(data, d) <= cap * count_for(data, d),
    decreases data.len(),
{
    if data.len() > 0 {
        assert(forall|j: int| #![trigger data.drop_last()[j]]
            0 <= j < data.drop_last().len() && data.drop_last()[j].density == d
                ==> data.drop_last()[j].burned <= cap);
        lemma_sum_for_cap(data.drop_last(), d, cap);
        assert(cap * (count_for(data.drop_last(), d) + 1) == cap * count_for(data.drop_last(), d)
            + cap) by (nonlinear_arith);
    }
}

/// The optimal-density result: the winning density and the exact
/// average number of surviving trees at it, kept as the pair of the
/// summed surviving counts over its trials and the trial count.
#[derive(Clone, Copy, Debug, PartialEq, Eq, Structural)]
pub struct OptimalDensity {
    pub density: usize,
    pub surviving_sum: usize,
    pub trials: usize,
}

/// The summed surviving trees behind an averaged record: every trial
/// at this density seeded `alive_target` trees and burned some.
pub open spec fn surviving_sum_of(total: int, rec: AvgRecord) -> int {
    alive_target(rec.density as int, total) * rec.trials - rec.burned_sum
}

/// Whether record `a` averages strictly more surviving trees than `b`.
/// The averages `sum / trials` are compared exactly, by cross
/// multiplication of the two pairs.
pub open spec fn strictly_better(total: int, a: AvgRecord, b: AvgRecord) -> bool {
    surviving_sum_of(total, a) * b.trials > surviving_sum_of(total, b) * a.trials
}

/// What the optimizer needs of an averaged record: a density in range,
/// at least one trial, no more burned than seeded, and products that
/// fit the machine word.
pub open spec fn avg_record_valid(total: int, rec: AvgRecord) -> bool {
    &&& 1 <= rec.density <= 100
    &&& rec.trials >= 1
    &&& rec.burned_sum <= alive_target(rec.density as int, total) * rec.trials
    &&& alive_target(rec.density as int, total) * rec.trials <= usize::MAX
}

/// With positive denominators, a weak cross-multiplied comparison
/// followed by a strict one composes to a strict one.
proof fn lemma_cross_compare_trans(sa: int, ta: int, sb: int, tb: int, sc: int, tc: int)
    requires
        ta >= 1,
        tb >= 1,
        tc >= 1,
        sa * tb <= sb * ta,
        sc * tb > sb * tc,
    ensures
        sc * ta > sa * tc,
{
    assert(sc * ta > sa * tc) by (nonlinear_arith)
        requires
            ta >= 1,
            tb >= 1,
            tc >= 1,
            sa * tb <= sb * ta,
            sc * tb > sb * tc,
    ;
}

/// Picks the averaged record that leaves the most trees standing:
/// surviving trees are what was seeded minus what burned, averaged over
/// the record's trials. Only a strictly larger average replaces the
/// running best, so on a tie the earlier record wins.
pub fn calculate_most_optimal_density(size: &(usize, usize), avg_data: &Vec<AvgRecord>) -> (r:
    OptimalDensity)
    requires
        avg_data@.len() >= 1,
        size.0 >= 1,
        size.1 >= 1,
        100 * (size.0 * size.1) + 99 <= usize::MAX,
        forall|k: int| #![trigger avg_data@[k]]
            0 <= k < avg_data@.len() ==> avg_record_valid((size.0 * size.1) as int, avg_data@[k]),
    ensures
        exists|k: int| #![trigger avg_data@[k]]
            0 <= k < avg_data@.len() && r.density == avg_data@[k].density && r.trials
                == avg_data@[k].trials && r.surviving_sum == surviving_sum_of(
                (size.0 * size.1) as int,
                avg_data@[k],
            ) && (forall|j: int|
                0 <= j < avg_data@.len() ==> !strictly_better(
                    (size.0 * size.1) as int,
                    #[trigger] avg_data@[j],
                    avg_data@[k],
                )) && (forall|j: int|
                0 <= j < k ==> strictly_better(
                    (size.0 * size.1) as int,
                    avg_data@[k],
                    #[trigger] avg_data@[j],
                )),
{
    let total = size.0 * size.1;
    let ghost gtotal = (size.0 * size.1) as int;
    let first = avg_data[0];
    proof {
        assert(0 <= (size.0 as int) * (size.1 as int)) by (nonlinear_arith);
        lemma_alive_target_bounds(first.density as int, gtotal);
        assert((first.density as int) * gtotal <= 100 * gtotal) by (nonlinear_arith)
            requires
                first.density <= 100,
                gtotal >= 0,
        ;
    }
    let target0 = (first.density * total + 99) / 100;
    let mut best = first;
    let mut best_surv: usize = target0 * first.trials - first.burned_sum;
    let ghost mut bestk: int = 0;
    let mut idx: usize = 1;
    while idx < avg_data.len()
        invariant
            avg_data@.len() >= 1,
            gtotal == (size.0 * size.1) as int,
            total as int == gtotal,
            100 * gtotal + 99 <= usize::MAX,
            forall|k: int| #![trigger avg_data@[k]]
                0 <= k < avg_data@.len() ==> avg_record_valid(gtotal, avg_data@[k]),
            1 <= idx <= avg_data@.len(),
            0 <= bestk < idx,
            best == avg_data@[bestk],
            best_surv as int == surviving_sum_of(gtotal, best),
            forall|j: int|
                0 <= j < idx ==> !strictly_better(gtotal, #[trigger] avg_data@[j], avg_data@[bestk]),
            forall|j: int|
                0 <= j < bestk ==> strictly_better(gtotal, avg_data@[bestk], #[trigger] avg_data@[j]),
        decreases avg_data@.len() - idx,
    {
        let rec = avg_data[idx];
        proof {
            lemma_alive_target_bounds(rec.density as int, gtotal);
            assert((rec.density as int) * gtotal <= 100 * gtotal) by (nonlinear_arith)
                requires
                    rec.density <= 100,
                    gtotal >= 0,
            ;
        }
        let tr = (rec.density * total + 99) / 100;
        let surv: usize = tr * rec.trials - rec.burned_sum;
        proof {
            vstd::arithmetic::mul::lemma_mul_upper_bound(
                surv as int,
                usize::MAX as int,
                best.trials as int,
                usize::MAX as int,
            );
            vstd::arithmetic::mul::lemma_mul_upper_bound(
                best_surv as int,
                usize::MAX as int,
                rec.trials as int,
                usize::MAX as int,
            );
            assert((usize::MAX as int) * (usize::MAX as int) < u128::MAX as int)
                by (nonlinear_arith);
        }
        if (surv as u128) * (best.trials as u128) > (best_surv as u128) * (rec.trials as u128) {
            proof {
                let ghost oldbest = best;
                assert forall|j: int| 0 <= j < idx implies strictly_better(
                    gtotal,
                    avg_data@[idx as int],
                    #[trigger] avg_data@[j],
                ) && !strictly_better(gtotal, avg_data@[j], avg_data@[idx as int]) by {
                    lemma_cross_compare_trans(
                        surviving_sum_of(gtotal, avg_data@[j]),
                        avg_data@[j].trials as int,
                        surviving_sum_of(gtotal, oldbest),
                        oldbest.trials as int,
                        surviving_sum_of(gtotal, avg_data@[idx as int]),
                        avg_data@[idx as int].trials as int,
                    );
                }
                bestk = idx as int;
            }
            best = rec;
            best_surv = surv;
        }
        idx = idx + 1;
    }
    OptimalDensity { density: best.density, surviving_sum: best_surv, trials: best.trials }
}

/// What the averaged series inherits from a sweep: each entry covers
/// exactly the configured number of trials of one swept density, burns
/// at least one tree per trial, and at full density burns everything.
proof fn lemma_series_entry_facts(cfg: Config, data: Seq<TrialRecord>, avg: Seq<AvgRecord>)
    requires
        cfg.valid(),
        ((cfg.rows * cfg.cols) as int) * data.len() <= usize::MAX,
        forall|j: int| #![trigger data[j]]
            0 <= j < data.len() ==> 1 <= data[j].density <= 100 && 1 <= data[j].burned
                <= alive_target(data[j].density as int, (cfg.rows * cfg.cols) as int) && (data[
            j].density == 100 ==> data[j].burned == cfg.rows * cfg.cols) && (exists|t: int|
                0 <= t < sweep_points(cfg.density_step as int) && data[j].density
                    == #[trigger] sweep_density(cfg.density_step as int, t)),
        forall|d: usize, t: int|
            #![trigger count_for(data, d), sweep_density(cfg.density_step as int, t)]
            0 <= t < sweep_points(cfg.density_step as int) && d == sweep_density(
                cfg.density_step as int,
                t,
            ) ==> count_for(data, d) == cfg.trials,
        forall|k: int| #![trigger avg[k]]
            0 <= k < avg.len() ==> avg[k].trials == count_for(data, avg[k].density)
                && avg[k].burned_sum == sum_for(data, avg[k].density) && avg[k].trials >= 1,
    ensures
        forall|k: int| #![trigger avg[k]]
            0 <= k < avg.len() ==> avg_record_valid((cfg.rows * cfg.cols) as int, avg[k])
                && avg[k].trials == cfg.trials && avg[k].burned_sum >= avg[k].trials && (avg[
            k].density == 100 ==> avg[k].burned_sum == (cfg.rows * cfg.cols) * cfg.trials)
                && is_sweep_density(cfg.density_step as int, avg[k].density),
{
    let gtotal = (cfg.rows * cfg.cols) as int;
    assert(1 <= gtotal) by (nonlinear_arith)
        requires
            cfg.rows >= 1,
            cfg.cols >= 1,
            gtotal == (cfg.rows as int) * (cfg.cols as int),
    ;
    assert forall|k: int| #![trigger avg[k]] 0 <= k < avg.len() implies avg_record_valid(
        gtotal,
        avg[k],
    ) && avg[k].trials == cfg.trials && avg[k].burned_sum >= avg[k].trials && (avg[k].density
        == 100 ==> avg[k].burned_sum == gtotal * cfg.trials) && is_sweep_density(
        cfg.density_step as int,
        avg[k].density,
    ) by {
        reveal(is_sweep_density);
        let d = avg[k].density;
        lemma_count_for_pos(data, d);
        let j = choose|j: int| 0 <= j < data.len() && #[trigger] data[j].density == d;
        let t = choose|t: int|
            0 <= t < sweep_points(cfg.density_step as int) && data[j].density
                == #[trigger] sweep_density(cfg.density_step as int, t);
        lemma_alive_target_bounds(d as int, gtotal);
        lemma_sum_for_cap(data, d, alive_target(d as int, gtotal));
        lemma_count_for_le_len(data, d);
        vstd::arithmetic::mul::lemma_mul_upper_bound(
            alive_target(d as int, gtotal),
            gtotal,
            count_for(data, d) as int,
            data.len() as int,
        );
        assert(count_for(data, d) == cfg.trials);
        lemma_sum_for_floor(data, d, 1);
        if d == 100 {
            lemma_sum_for_floor(data, d, gtotal);
            lemma_sum_for_cap(data, d, gtotal);
            assert(gtotal * count_for(data, d) == gtotal * cfg.trials);
        }
    }
}

/// Every swept density appears in the averaged series: its first
/// trial's record is in the data, and grouping keeps every density.
proof fn lemma_series_completeness(cfg: Config, data: Seq<TrialRecord>, avg: Seq<AvgRecord>)
    requires
        cfg.valid(),
        cfg.density_step <= 100,
        data.len() == cfg.trials * sweep_points(cfg.density_step as int),
        forall|a: int, t: int| #![trigger sweep_slot(cfg.density_step as int, a, t)]
            0 <= a < cfg.trials && 0 <= t < sweep_points(cfg.density_step as int) ==> data[
                sweep_slot(cfg.density_step as int, a, t)].density == cfg.density_step * (t + 1),
        forall|j: int| #![trigger data[j]]
            0 <= j < data.len() ==> has_density(avg, data[j].density),
    ensures
        forall|t: int| #![trigger sweep_density(cfg.density_step as int, t)]
            0 <= t < sweep_points(cfg.density_step as int) ==> 1 <= sweep_density(
                cfg.density_step as int,
                t,
            ) <= 100 && has_density(avg, sweep_density(cfg.density_step as int, t) as usize),
{
    let step = cfg.density_step as int;
    assert forall|t: int| #![trigger sweep_density(cfg.density_step as int, t)]
        0 <= t < sweep_points(cfg.density_step as int) implies 1 <= sweep_density(
        cfg.density_step as int,
        t,
    ) <= 100 && has_density(avg, sweep_density(cfg.density_step as int, t) as usize) by {
        assert(sweep_slot(step, 0, t) == t) by (nonlinear_arith)
            requires
                sweep_slot(step, 0, t) == 0 * sweep_points(step) + t,
        ;
        assert(cfg.trials * sweep_points(step) >= sweep_points(step)) by (nonlinear_arith)
            requires
                cfg.trials >= 1,
                sweep_points(step) >= 0,
        ;
        assert(0 <= t < data.len());
        assert(data[sweep_slot(step, 0, t)].density == cfg.density_step * (t + 1));
        assert(data[t].density == sweep_density(step, t));
        assert(has_density(avg, data[t].density));
        vstd::arithmetic::div_mod::lemma_fundamental_div_mod(100, step);
        vstd::arithmetic::div_mod::lemma_mod_division_less_than_divisor(100, step);
        vstd::arithmetic::mul::lemma_mul_inequality(t + 1, sweep_points(step), step);
        vstd::arithmetic::mul::lemma_mul_is_commutative(t + 1, step);
        vstd::arithmetic::mul::lemma_mul_is_commutative(sweep_points(step), step);
        assert(1 <= step * (t + 1)) by (nonlinear_arith)
            requires
                step >= 1,
                t >= 0,
        ;
        assert(1 <= sweep_density(step, t) <= 100);
        assert(sweep_density(step, t) as usize == data[t].density);
    }
}

/// The whole experiment: sweeps the densities, groups and averages the
/// trials by density, and picks the density that leaves the most trees
/// standing. A step above 100 percent sweeps nothing, so there is no
/// series and no optimal density to report; any valid step up to 100
/// yields both.
#[verifier::spinoff_prover]
#[verifier::rlimit(30)]
pub fn run_experiment(cfg: &Config, rng: &mut rand::rngs::StdRng) -> (r: (
    Vec<AvgRecord>,
    Option<OptimalDensity>,
))
    requires
        cfg.valid(),
        (cfg.rows * cfg.cols) * (cfg.trials * sweep_points(cfg.density_step as int))
            <= usize::MAX,
    ensures
        forall|k: int| #![trigger r.0@[k]]
            0 <= k < r.0@.len() ==> avg_record_valid((cfg.rows * cfg.cols) as int, r.0@[k])
                && r.0@[k].trials == cfg.trials && r.0@[k].burned_sum >= r.0@[k].trials && (r.0@[
            k].density == 100 ==> r.0@[k].burned_sum == (cfg.rows * cfg.cols) * cfg.trials)
                && is_sweep_density(cfg.density_step as int, r.0@[k].density),
        forall|t: int| #![trigger sweep_density(cfg.density_step as int, t)]
            0 <= t < sweep_points(cfg.density_step as int) ==> 1 <= sweep_density(
                cfg.density_step as int,
                t,
            ) <= 100 && has_density(r.0@, sweep_density(cfg.density_step as int, t) as usize),
        forall|k1: int, k2: int|
            0 <= k1 < k2 < r.0@.len() ==> r.0@[k1].density < r.0@[k2].density,
        r.0@.len() >= 1 <==> cfg.density_step <= 100,
        r.1 is Some <==> cfg.density_step <= 100,
        r.1 matches Some(opt) ==> exists|k: int| #![trigger r.0@[k]]
            0 <= k < r.0@.len() && opt.density == r.0@[k].density && opt.trials == r.0@[k].trials
                && opt.surviving_sum == surviving_sum_of((cfg.rows * cfg.cols) as int, r.0@[k]) && (
            forall|j: int|
                0 <= j < r.0@.len() ==> !strictly_better(
                    (cfg.rows * cfg.cols) as int,
                    #[trigger] r.0@[j],
                    r.0@[k],
                )) && (forall|j: int|
                0 <= j < k ==> strictly_better(
                    (cfg.rows * cfg.cols) as int,
                    r.0@[k],
                    #[trigger] r.0@[j],
                )),
{
    let ghost gtotal = (cfg.rows * cfg.cols) as int;
    let ghost step = cfg.density_step as int;
    let data = run_sweep(cfg, rng);
    proof {
        assert(1 <= gtotal) by (nonlinear_arith)
            requires
                cfg.rows >= 1,
                cfg.cols >= 1,
                gtotal == (cfg.rows as int) * (cfg.cols as int),
        ;
        assert forall|j: int| #![trigger data@[j]] 0 <= j < data@.len() implies data@[j].burned
            <= gtotal by {
            lemma_alive_target_bounds(data@[j].density as int, gtotal);
        }
        assert forall|d: usize| sum_for(data@, d) <= usize::MAX by {
            lemma_sum_for_cap(data@, d, gtotal);
            lemma_count_for_le_len(data@, d);
            vstd::arithmetic::mul::lemma_mul_upper_bound(
                gtotal,
                gtotal,
                count_for(data@, d) as int,
                data@.len() as int,
            );
        }
    }
    let avg = calculate_avg_data(&data);
    proof {
        lemma_series_entry_facts(*cfg, data@, avg@);
        if cfg.density_step <= 100 {
            vstd::arithmetic::div_mod::lemma_div_is_ordered(step, 100, step);
            vstd::arithmetic::div_mod::lemma_div_by_self(step);
            assert(sweep_points(step) >= 1);
            assert(data@.len() >= 1) by {
                assert(cfg.trials * sweep_points(step) >= 1) by (nonlinear_arith)
                    requires
                        cfg.trials >= 1,
                        sweep_points(step) >= 1,
                ;
            }
            assert(has_density(avg@, data@[0].density));
            assert(avg@.len() >= 1);
            lemma_series_completeness(*cfg, data@, avg@);
        } else {
            vstd::arithmetic::div_mod::lemma_basic_div(100, step);
            assert(sweep_points(step) == 0);
            assert(data@.len() == 0);
            if avg@.len() >= 1 {
                assert(avg@[0].trials >= 1 && avg@[0].trials == count_for(data@, avg@[0].density));
                lemma_count_for_le_len(data@, avg@[0].density);
                assert(false);
            }
        }
    }
    if avg.len() == 0 {
        (avg, None)
    } else {
        let size = (cfg.rows, cfg.cols);
        let opt = calculate_most_optimal_density(&size, &avg);
        let result = (avg, Some(opt));
        proof {
            assert((size.0 * size.1) as int == gtotal);
            let k = choose|k: int| #![trigger result.0@[k]]
                0 <= k < result.0@.len() && opt.density == result.0@[k].density && opt.trials
                    == result.0@[k].trials && opt.surviving_sum == surviving_sum_of(
                    (size.0 * size.1) as int,
                    result.0@[k],
                ) && (forall|j: int|
                    0 <= j < result.0@.len() ==> !strictly_better(
                        (size.0 * size.1) as int,
                        #[trigger] result.0@[j],
                        result.0@[k],
                    )) && (forall|j: int|
                    0 <= j < k ==> strictly_better(
                        (size.0 * size.1) as int,
                        result.0@[k],
                        #[trigger] result.0@[j],
                    ));
            assert(0 <= k < result.0@.len() && opt.density == result.0@[k].density && opt.trials
                == result.0@[k].trials && opt.surviving_sum == surviving_sum_of(
                gtotal,
                result.0@[k],
            ));
            assert(forall|j: int|
                0 <= j < result.0@.len() ==> !strictly_better(
                    gtotal,
                    #[trigger] result.0@[j],
                    result.0@[k],
                ));
            assert(forall|j: int|
                0 <= j < k ==> strictly_better(gtotal, result.0@[k], #[trigger] result.0@[j]));
        }
        result
    }
}

} // verus!
