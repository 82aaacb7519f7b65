//! Kernel selection by a linear cost model.
use vstd::prelude::*;

verus! {

/// The largest magnitude of a cost coefficient: keeps every prediction
/// within `i128`.
pub const COEF_BOUND: i128 = 0x1_0000_0000_0000_0000_0000_00;

/// The largest magnitude of one weighted feature.
pub open spec fn term_bound() -> int {
    0x1000000000000000000000000000000
}

/// The most features a cost model may weigh.
pub const MAX_FEATURES: usize = 64;

/// A linear cost model of one kernel variant of tile shape `mr` by `nr`:
/// predicted time is `intercept + sum(coef[i] * feature[i])`, where the
/// features are a fixed expansion of the problem shape `(m, k, n)`. Times
/// are in units of 1e-24 second.
#[derive(Clone, Debug)]
pub struct CostModel {
    pub mr: usize,
    pub nr: usize,
    pub intercept: i128,
    pub coef: Vec<i128>,
}

/// `sum(coef[t] * feat[t])` over the first `i` terms.
pub open spec fn dot(coef: Seq<i128>, feat: Seq<u32>, i: nat) -> int
    decreases i,
{
    if i == 0 {
        0
    } else {
        dot(coef, feat, (i - 1) as nat) + coef[i - 1] * feat[i - 1]
    }
}

/// The time a model predicts for one feature vector.
pub open spec fn predicted_cost(model: CostModel, feat: Seq<u32>) -> int {
    model.intercept + dot(model.coef@, feat, model.coef@.len())
}

/// A model and a feature vector that fit together and within the bounds.
pub open spec fn model_ok(model: CostModel, feat: Seq<u32>) -> bool {
    &&& model.coef@.len() == feat.len()
    &&& feat.len() <= MAX_FEATURES
    &&& -COEF_BOUND <= model.intercept <= COEF_BOUND
    &&& forall|t: int| 0 <= t < model.coef@.len() ==> -COEF_BOUND <= #[trigger] model.coef@[t] <= COEF_BOUND
}

proof fn lemma_term_bound(c: int, f: int)
    requires
        -COEF_BOUND <= c <= COEF_BOUND,
        0 <= f <= u32::MAX,
    ensures
        -term_bound() <= c * f <= term_bound(),
{
    assert(-COEF_BOUND * 0x1_0000_0000 <= c * f <= COEF_BOUND * 0x1_0000_0000) by (nonlinear_arith)
        requires
            -COEF_BOUND <= c <= COEF_BOUND,
            0 <= f <= u32::MAX,
            COEF_BOUND > 0,
    ;
}

/// The time that `model` predicts for the features `feat`.
pub fn predict(model: &CostModel, feat: &Vec<u32>) -> (r: i128)
    requires
        model_ok(*model, feat@),
    ensures
        r == predicted_cost(*model, feat@),
{
    let mut acc: i128 = 0;
    let mut t: usize = 0;
    while t < model.coef.len()
        invariant
            model_ok(*model, feat@),
            t <= model.coef@.len(),
            acc == dot(model.coef@, feat@, t as nat),
            -(t as int) * (term_bound()) <= acc <= (t as int) * (term_bound()),
        decreases model.coef@.len() - t,
    {
        proof {
            lemma_term_bound(model.coef@[t as int] as int, feat@[t as int] as int);
            assert((t as int) * term_bound() + term_bound() == (t as int + 1) * term_bound()) by (nonlinear_arith);
            assert(-(t as int) * term_bound() - term_bound() == -(t as int + 1) * term_bound()) by (nonlinear_arith);
            assert((t as int + 1) * term_bound() <= 64 * term_bound()) by (nonlinear_arith)
                requires t < 64, term_bound() > 0;
            assert(-(t as int + 1) * term_bound() >= -64 * term_bound()) by (nonlinear_arith)
                requires t < 64, term_bound() > 0;
        }
        acc = acc + model.coef[t] * (feat[t] as i128);
        t = t + 1;
    }
    proof {
        assert((t as int) * term_bound() <= 64 * term_bound()) by (nonlinear_arith)
            requires t <= 64, term_bound() > 0;
        assert(-(t as int) * term_bound() >= -64 * term_bound()) by (nonlinear_arith)
            requires t <= 64, term_bound() > 0;
    }
    model.intercept + acc
}

/// Candidate `i` has the least predicted cost, and no earlier candidate
/// ties with it.
pub open spec fn is_first_cheapest(models: Seq<CostModel>, features: Seq<Vec<u32>>, i: int) -> bool {
    &&& 0 <= i < models.len()
    &&& forall|j: int| 0 <= j < models.len() ==> predicted_cost(#[trigger] models[j], features[j]@) >= predicted_cost(models[i], features[i]@)
    &&& forall|j: int| 0 <= j < i ==> predicted_cost(#[trigger] models[j], features[j]@) > predicted_cost(models[i], features[i]@)
}

/// Picks the kernel variant of least predicted cost, the earliest on a tie,
/// where `features[i]` is the feature expansion of the problem shape for
/// candidate `i`; `None` for an empty table.
pub fn select_kernel(models: &Vec<CostModel>, features: &Vec<Vec<u32>>) -> (r: Option<usize>)
    requires
        models@.len() == features@.len(),
        forall|i: int| 0 <= i < models@.len() ==> model_ok(#[trigger] models@[i], features@[i]@),
    ensures
        r is None <==> models@.len() == 0,
        r matches Some(i) ==> is_first_cheapest(models@, features@, i as int),
{
    if models.len() == 0 {
        return None;
    }
    let mut best: usize = 0;
    let mut best_cost = predict(&models[0], &features[0]);
    let mut i: usize = 1;
    while i < models.len()
        invariant
            models@.len() == features@.len(),
            forall|q: int| 0 <= q < models@.len() ==> model_ok(#[trigger] models@[q], features@[q]@),
            1 <= i <= models@.len(),
            best < i,
            best_cost == predicted_cost(models@[best as int], features@[best as int]@),
            forall|j: int| 0 <= j < i ==> predicted_cost(#[trigger] models@[j], features@[j]@) >= best_cost,
            forall|j: int| 0 <= j < best ==> predicted_cost(#[trigger] models@[j], features@[j]@) > best_cost,
        decreases models@.len() - i,
    {
        let c = predict(&models[i], &features[i]);
        if c < best_cost {
            best = i;
            best_cost = c;
        }
        i = i + 1;
    }
    Some(best)
}

/// Selection is a function of the table and the features alone: a first
/// cheapest candidate is unique, so repeated selections agree, and on a
/// tie the earlier candidate is the one chosen.
pub proof fn lemma_selection_deterministic(models: Seq<CostModel>, features: Seq<Vec<u32>>, i: int, j: int)
    requires
        is_first_cheapest(models, features, i),
        is_first_cheapest(models, features, j),
    ensures
        i == j,
{
    if i < j {
        assert(predicted_cost(models[i], features[i]@) > predicted_cost(models[j], features[j]@));
    } else if j < i {
        assert(predicted_cost(models[j], features[j]@) > predicted_cost(models[i], features[i]@));
    }
}

/// The cost models of the kernels measured on Cortex-A7 class cores, each
/// weighing eleven features: the whole table, name by name.
pub fn models() -> (r: Vec<(&'static str, CostModel)>)
    ensures
        r@.len() == 7,
            r@[0].0@ == "generic_f32_4x4"@,
            r@[0].1.mr == 4 && r@[0].1.nr == 4 && r@[0].1.intercept == 36894115268386310000,
            r@[0].1.coef@ == seq![1189212322591629900i128, 21856630269339606i128, 18007276957232266000i128, 505351986178125900i128, 27145252730864680000i128, -194642660023473120i128, 7876053509501342000i128, 5919391026987203000i128, -2234609628416709200i128, -1097145356176169000i128, -15203718931911778000i128],
            r@[1].0@ == "armv7neon_mmm_f32_8x4_cortexa7"@,
            r@[1].1.mr == 8 && r@[1].1.nr == 4 && r@[1].1.intercept == 100834604790969210000,
            r@[1].1.coef@ == seq![-2324338361653567300i128, 42219719094448326i128, -34147104166608760000i128, -87490484966164620i128, -56313270746933150000i128, 140392435981687100i128, -618179658349846200i128, 2479403326046156000i128, -64219624980083310i128, 197443970052647840i128, 2635516633779746400i128],
            r@[2].0@ == "armv7neon_mmm_f32_8x6_cortexa7"@,
            r@[2].1.mr == 8 && r@[2].1.nr == 6 && r@[2].1.intercept == 33884204795901825000,
            r@[2].1.coef@ == seq![-943406666598374300i128, 67734896401281270i128, 43787961762599356000i128, 195671334197199330i128, 20360191927665707000i128, -48468812202142990i128, 1483267644011604800i128, -33204237351641370i128, 162645188017021000i128, 1033463663395871000i128, -10145734646402550000i128],
            r@[3].0@ == "armv7neon_mmm_f32_8x4_cortexa9"@,
            r@[3].1.mr == 8 && r@[3].1.nr == 4 && r@[3].1.intercept == 50294403837273954000,
            r@[3].1.coef@ == seq![1358011210456915800i128, 89499284182424000i128, 16737519666345186000i128, -708850363098590900i128, 8068967965838715000i128, 767696791366867700i128, 3947350388095252000i128, -7580193339042617000i128, -509188800189291300i128, -223970272624145960i128, -5249698365951377000i128],
            r@[4].0@ == "armv7neon_mmm_f32_8x6_cortexa9"@,
            r@[4].1.mr == 8 && r@[4].1.nr == 6 && r@[4].1.intercept == 45346178080756290000,
            r@[4].1.coef@ == seq![-884886202498522400i128, 37361377202840784i128, 18542136958919496000i128, 159913947567188720i128, -21911165771904542000i128, 315548839036181240i128, 7365968835932760000i128, 11608565257667635000i128, -505611197203818300i128, -493660786390877900i128, -23066494615297598000i128],
            r@[5].0@ == "armv7neon_mmm_f32_8x4_generic"@,
            r@[5].1.mr == 8 && r@[5].1.nr == 4 && r@[5].1.intercept == 93196685771804790000,
            r@[5].1.coef@ == seq![-3539728500170448200i128, 46636778807024980i128, -123113889777186260000i128, 894808669690188700i128, 68956960374707180000i128, -806781162818618500i128, 3092902843566354500i128, 4980721850068063000i128, -128352190973052320i128, -2280328383193139300i128, -1010773467811105000i128],
            r@[6].0@ == "armv7neon_mmm_f32_8x6_generic"@,
            r@[6].1.mr == 8 && r@[6].1.nr == 6 && r@[6].1.intercept == 126215677569737320000,
            r@[6].1.coef@ == seq![-3337810894017882000i128, 65066028284185500i128, -52056574896622336000i128, -509093570818515900i128, -100242026553157560000i128, 573294487537266200i128, -712322311768890200i128, 1278462464726621400i128, 381263902336927560i128, 379494037517328800i128, 1104309915889326800i128],
{
    let r = vec![
        (
            "generic_f32_4x4",
            CostModel {
                mr: 4,
                nr: 4,
                intercept: 36894115268386310000,
                coef: vec![
                1189212322591629900,
                21856630269339606,
                18007276957232266000,
                505351986178125900,
                27145252730864680000,
                -194642660023473120,
                7876053509501342000,
                5919391026987203000,
                -2234609628416709200,
                -1097145356176169000,
                -15203718931911778000,
                ],
            },
        ),
        (
            "armv7neon_mmm_f32_8x4_cortexa7",
            CostModel {
                mr: 8,
                nr: 4,
                intercept: 100834604790969210000,
                coef: vec![
                -2324338361653567300,
                42219719094448326,
                -34147104166608760000,
                -87490484966164620,
                -56313270746933150000,
                140392435981687100,
                -618179658349846200,
                2479403326046156000,
                -64219624980083310,
                197443970052647840,
                2635516633779746400,
                ],
            },
        ),
        (
            "armv7neon_mmm_f32_8x6_cortexa7",
            CostModel {
                mr: 8,
                nr: 6,
                intercept: 33884204795901825000,
                coef: vec![
                -943406666598374300,
                67734896401281270,
                43787961762599356000,
                195671334197199330,
                20360191927665707000,
                -48468812202142990,
                1483267644011604800,
                -33204237351641370,
                162645188017021000,
                1033463663395871000,
                -10145734646402550000,
                ],
            },
        ),
        (
            "armv7neon_mmm_f32_8x4_cortexa9",
            CostModel {
                mr: 8,
                nr: 4,
                intercept: 50294403837273954000,
                coef: vec![
                1358011210456915800,
                89499284182424000,
                16737519666345186000,
                -708850363098590900,
                8068967965838715000,
                767696791366867700,
                3947350388095252000,
                -7580193339042617000,
                -509188800189291300,
                -223970272624145960,
                -5249698365951377000,
                ],
            },
        ),
        (
            "armv7neon_mmm_f32_8x6_cortexa9",
            CostModel {
                mr: 8,
                nr: 6,
                intercept: 45346178080756290000,
                coef: vec![
                -884886202498522400,
                37361377202840784,
                18542136958919496000,
                159913947567188720,
                -21911165771904542000,
                315548839036181240,
                7365968835932760000,
                11608565257667635000,
                -505611197203818300,
                -493660786390877900,
                -23066494615297598000,
                ],
            },
        ),
        (
            "armv7neon_mmm_f32_8x4_generic",
            CostModel {
                mr: 8,
                nr: 4,
                intercept: 93196685771804790000,
                coef: vec![
                -3539728500170448200,
                46636778807024980,
                -123113889777186260000,
                894808669690188700,
                68956960374707180000,
                -806781162818618500,
                3092902843566354500,
                4980721850068063000,
                -128352190973052320,
                -2280328383193139300,
                -1010773467811105000,
                ],
            },
        ),
        (
            "armv7neon_mmm_f32_8x6_generic",
            CostModel {
                mr: 8,
                nr: 6,
                intercept: 126215677569737320000,
                coef: vec![
                -3337810894017882000,
                65066028284185500,
                -52056574896622336000,
                -509093570818515900,
                -100242026553157560000,
                573294487537266200,
                -712322311768890200,
                1278462464726621400,
                381263902336927560,
                379494037517328800,
                1104309915889326800,
                ],
            },
        ),
    ];
    r
}

} // verus!
