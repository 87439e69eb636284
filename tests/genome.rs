use neuralang::genome::{
    copy_vec, random_draws, splice_ffs, splice_words, widths_fit_check, Activation, Affine, SumFxModel, FF, WEIGHT_ONE,
};

fn all_params(m: &SumFxModel) -> Vec<u32> {
    let mut out = Vec::new();
    for ff in [&m.being_model, &m.fo_model, &m.speechlet_model, &m.self_model, &m.final_model] {
        for lin in &ff.lins {
            out.extend(lin.weights.iter().copied());
            if let Some(b) = &lin.bias {
                out.extend(b.iter().copied());
            }
        }
    }
    out
}

fn shapes(m: &SumFxModel) -> Vec<(usize, usize, usize, Option<usize>)> {
    let mut out = Vec::new();
    for ff in [&m.being_model, &m.fo_model, &m.speechlet_model, &m.self_model, &m.final_model] {
        for lin in &ff.lins {
            out.push((lin.inputs, lin.outputs, lin.weights.len(), lin.bias.as_ref().map(|b| b.len())));
        }
    }
    out
}

#[test]
fn splice_words_follows_the_draws() {
    let a = vec![1, 2, 3, 4];
    let b = vec![10, 20, 30, 40];
    let d = vec![0, 999_999, 500_000, 499_999];
    assert_eq!(splice_words(&a, &b, &d, 500_000), vec![1, 20, 30, 4]);
    assert_eq!(splice_words(&a, &b, &d, WEIGHT_ONE), a);
    assert_eq!(splice_words(&a, &b, &d, 0), b);
}

#[test]
fn random_draws_stay_below_one() {
    let d = random_draws(1000);
    assert_eq!(d.len(), 1000);
    assert!(d.iter().all(|x| *x < WEIGHT_ONE));
    assert!(d.iter().any(|x| *x != d[0]));
}

#[test]
fn copy_vec_copies() {
    assert_eq!(copy_vec(&vec![3u32, 1, 2]), vec![3, 1, 2]);
}

#[test]
fn fresh_layer_has_its_shape_and_random_weights() {
    let l = Affine::fresh(3, 4);
    assert_eq!(l.inputs, 3);
    assert_eq!(l.outputs, 4);
    assert_eq!(l.weights.len(), 12);
    assert_eq!(l.bias.as_ref().map(|b| b.len()), Some(4));
    assert!(l.weights.iter().any(|w| *w != 0));
    let f = f32::from_bits(l.weights[0]);
    assert!(f.abs() <= 1.0);
}

#[test]
fn ff_new_builds_one_layer_per_width_pair() {
    let ff = FF::new(vec![5, 7, 2], vec![Activation::Tanh, Activation::Relu, Activation::Identity]);
    assert_eq!(ff.lins.len(), 2);
    assert_eq!((ff.lins[0].inputs, ff.lins[0].outputs), (5, 7));
    assert_eq!((ff.lins[1].inputs, ff.lins[1].outputs), (7, 2));
}

#[test]
fn splice_ffs_boundaries() {
    let a = FF::new(vec![4, 3], vec![Activation::Tanh, Activation::Tanh]);
    let b = a.fresh_like();
    let all_a = splice_ffs(a.duplicate(), b.duplicate(), WEIGHT_ONE);
    assert_eq!(all_a.lins[0].weights, a.lins[0].weights);
    assert_eq!(all_a.lins[0].bias, a.lins[0].bias);
    let all_b = splice_ffs(a.duplicate(), b.duplicate(), 0);
    assert_eq!(all_b.lins[0].weights, b.lins[0].weights);
    assert_eq!(all_b.lins[0].bias, b.lins[0].bias);
}

#[test]
fn standard_model_shape() {
    let m = SumFxModel::standard_model();
    assert!(m.concat_before_final);
    assert_eq!(m.intermediate_dim, 32);
    assert_eq!(m.being_model.sizes, vec![14, 8]);
    assert_eq!(m.fo_model.sizes, vec![5, 8]);
    assert_eq!(m.speechlet_model.sizes, vec![8, 8]);
    assert_eq!(m.self_model.sizes, vec![5, 8]);
    assert_eq!(m.final_model.sizes, vec![32, 12]);
}

#[test]
fn crossover_keeps_shapes() {
    let a = SumFxModel::standard_model();
    let b = SumFxModel::standard_model();
    let sa = shapes(&a);
    let c = a.crossover(b, 300_000);
    assert_eq!(shapes(&c), sa);
}

#[test]
fn crossover_weight_one_is_first_parent() {
    let a = SumFxModel::standard_model();
    let b = SumFxModel::standard_model();
    let pa = all_params(&a);
    let c = a.crossover(b, WEIGHT_ONE);
    assert_eq!(all_params(&c), pa);
}

#[test]
fn crossover_weight_zero_is_second_parent() {
    let a = SumFxModel::standard_model();
    let b = SumFxModel::standard_model();
    let pb = all_params(&b);
    let c = a.crossover(b, 0);
    assert_eq!(all_params(&c), pb);
}

#[test]
fn crossover_splices_elements() {
    let a = SumFxModel::standard_model();
    let b = SumFxModel::standard_model();
    let (pa, pb) = (all_params(&a), all_params(&b));
    let c = all_params(&a.crossover(b, 500_000));
    assert!(c.iter().zip(pa.iter().zip(pb.iter())).all(|(x, (y, z))| x == y || x == z));
    assert!(c.iter().zip(pa.iter()).any(|(x, y)| x == y));
    assert!(c.iter().zip(pb.iter()).any(|(x, z)| x == z));
}

#[test]
fn mutate_rate_zero_changes_nothing() {
    let a = SumFxModel::standard_model();
    let pa = all_params(&a);
    let m = a.mutate(0);
    assert_eq!(all_params(&m), pa);
}

#[test]
fn mutate_against_rate_one_is_the_noise() {
    let a = SumFxModel::standard_model();
    let noise = SumFxModel::standard_model();
    let pn = all_params(&noise);
    let m = a.mutate_against(noise, WEIGHT_ONE);
    assert_eq!(all_params(&m), pn);
}

#[test]
fn mutate_rate_one_replaces_parameters() {
    let a = SumFxModel::standard_model();
    let pa = all_params(&a);
    let sa = shapes(&a);
    let m = a.mutate(WEIGHT_ONE);
    assert_eq!(shapes(&m), sa);
    let same = all_params(&m).iter().zip(pa.iter()).filter(|(x, y)| x == y).count();
    assert!(same < pa.len() / 10);
}

#[test]
fn duplicate_copies_every_parameter() {
    let a = SumFxModel::standard_model();
    assert_eq!(all_params(&a.duplicate()), all_params(&a));
}

#[test]
fn widths_fit_check_follows_the_mode() {
    assert!(widths_fit_check(8, 8, 8, 8, 32, true));
    assert!(!widths_fit_check(8, 8, 8, 8, 31, true));
    assert!(widths_fit_check(8, 8, 8, 8, 8, false));
    assert!(!widths_fit_check(8, 7, 8, 8, 8, false));
}
