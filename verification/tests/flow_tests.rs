use renormalization_agent::{RGFlow, RgError};

type Beta = Box<dyn Fn(&[f64]) -> f64>;

fn euler(dt: f64) -> impl Fn(f64, f64) -> Result<f64, String> {
    move |x, d| {
        let v = x + dt * d;
        if v.is_finite() {
            Ok(v)
        } else {
            Err(format!("{}", v))
        }
    }
}

#[test]
fn euler_trivial_beta() {
    // beta = 0 -> couplings don't change
    let betas: Vec<Beta> = vec![Box::new(|_: &[f64]| 0.0), Box::new(|_: &[f64]| 0.0)];
    let mut flow = RGFlow::new(vec![1.0, 2.0], betas).unwrap();
    let traj = flow.integrate_euler_with(10, euler(0.1)).unwrap();
    assert_eq!(traj.len(), 11);
    assert!((traj[10][0] - 1.0).abs() < 1e-12);
    assert!((traj[10][1] - 2.0).abs() < 1e-12);
}

#[test]
fn euler_linear_beta() {
    // beta_1 = -lambda_1 (flow to zero)
    let betas: Vec<Beta> = vec![Box::new(|l: &[f64]| -l[0])];
    let mut flow = RGFlow::new(vec![1.0], betas).unwrap();
    let traj = flow.integrate_euler_with(100, euler(0.01)).unwrap();
    // After t=1.0: lambda ~ e^{-1} ~ 0.368
    let approx = traj[100][0];
    assert!((approx - 0.368).abs() < 0.05, "got {approx}");
}

#[test]
fn coupling_mismatch_error() {
    let betas: Vec<Beta> = vec![Box::new(|_: &[f64]| 0.0), Box::new(|_: &[f64]| 0.0)];
    let result = RGFlow::new(vec![1.0], betas);
    assert!(result.is_err());
}

#[test]
fn divergence_detection() {
    let betas: Vec<Beta> = vec![Box::new(|l: &[f64]| l[0] * l[0])]; // beta = lambda^2, explodes
    let mut flow = RGFlow::new(vec![1.0], betas).unwrap();
    let result = flow.integrate_euler_with(1000, euler(1.0));
    assert!(result.is_err());
}

#[test]
fn coupling_mismatch_reports_both_lengths() {
    let betas: Vec<Beta> = vec![Box::new(|_: &[f64]| 0.0), Box::new(|_: &[f64]| 0.0)];
    match RGFlow::new(vec![1.0], betas) {
        Err(RgError::CouplingMismatch { expected, got }) => assert_eq!((expected, got), (1, 2)),
        _ => panic!("expected a coupling mismatch"),
    }
}

#[test]
fn divergence_reports_step_and_coupling() {
    // with dt = 1 and beta = lambda^2 the second coupling runs
    // 1 -> 2 -> 6 -> 42 -> 1806 -> ... and overflows to inf
    let betas: Vec<Beta> = vec![Box::new(|_: &[f64]| 0.0), Box::new(|l: &[f64]| l[1] * l[1])];
    let mut flow = RGFlow::new(vec![3.0, 1.0], betas).unwrap();
    match flow.integrate_euler_with(1000, euler(1.0)) {
        Err(RgError::Divergence { step, message }) => {
            assert!(step < 1000);
            assert_eq!(message, "coupling[1] diverged to inf");
        }
        other => panic!("unexpected {:?}", other.map(|t| t.len())),
    }
    // a divergent run leaves the couplings as they were
    assert_eq!(flow.couplings(), &vec![3.0, 1.0]);
}

#[test]
fn successful_run_moves_couplings_to_last_entry() {
    let betas: Vec<Beta> = vec![Box::new(|l: &[f64]| l[0] + l[1]), Box::new(|_: &[f64]| 1.0)];
    let mut flow = RGFlow::new(vec![0.0, 0.0], betas).unwrap();
    let traj = flow.integrate_euler_with(3, euler(1.0)).unwrap();
    // every derivative is taken before any coupling moves
    assert_eq!(traj, vec![vec![0.0, 0.0], vec![0.0, 1.0], vec![1.0, 2.0], vec![4.0, 3.0]]);
    assert_eq!(flow.couplings(), &vec![4.0, 3.0]);
    let zero_steps = flow.integrate_euler_with(0, euler(1.0)).unwrap();
    assert_eq!(zero_steps, vec![vec![4.0, 3.0]]);
}

#[test]
fn integration_runs_concatenate() {
    let make = || -> Vec<Beta> { vec![Box::new(|l: &[f64]| 2.0 - l[0])] };
    let mut split = RGFlow::new(vec![0.0], make()).unwrap();
    let first = split.integrate_euler_with(2, euler(0.5)).unwrap();
    let second = split.integrate_euler_with(3, euler(0.5)).unwrap();
    let mut whole = RGFlow::new(vec![0.0], make()).unwrap();
    let all = whole.integrate_euler_with(5, euler(0.5)).unwrap();
    let mut joined = first.clone();
    joined.extend_from_slice(&second[1..]);
    assert_eq!(joined, all);
    assert_eq!(split.couplings(), whole.couplings());
}

#[test]
fn fixed_point_search_drives_refinement() {
    let betas: Vec<Beta> = vec![Box::new(|l: &[f64]| -l[0])];
    let flow = RGFlow::new(vec![1.0], betas).unwrap();
    // halve until within 0.1 of zero: 1 -> 0.5 -> 0.25 -> 0.125 -> 0.0625
    let refine = |l: &[f64]| if l[0].abs() < 0.1 { None } else { Some(vec![l[0] / 2.0]) };
    assert_eq!(flow.find_fixed_point_with(&[1.0], 5, refine).unwrap(), vec![0.0625]);
    // four refinements are needed, so four examined points are not enough
    match flow.find_fixed_point_with(&[1.0], 4, refine) {
        Err(RgError::NoConvergence { iterations }) => assert_eq!(iterations, 4),
        other => panic!("unexpected {:?}", other),
    }
    match flow.find_fixed_point_with(&[0.0], 0, refine) {
        Err(RgError::NoConvergence { iterations }) => assert_eq!(iterations, 0),
        other => panic!("unexpected {:?}", other),
    }
    match flow.find_fixed_point_with(&[1.0, 2.0], 5, refine) {
        Err(RgError::CouplingMismatch { expected, got }) => assert_eq!((expected, got), (1, 2)),
        other => panic!("unexpected {:?}", other),
    }
}

#[test]
fn fixed_points_are_registered_in_order() {
    let betas: Vec<Beta> = vec![Box::new(|l: &[f64]| l[0])];
    let mut flow = RGFlow::new(vec![1.0], betas).unwrap();
    assert!(flow.fixed_points().is_empty());
    flow.add_fixed_point(vec![0.0]);
    flow.add_fixed_point(vec![1.5]);
    assert_eq!(flow.fixed_points(), &vec![vec![0.0], vec![1.5]]);
    assert_eq!(flow.beta_functions().len(), 1);
}
