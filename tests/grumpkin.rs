use baby_giant::grumpkin::{grumpkin_bsgs, grumpkin_point, grumpkin_str_to_point, g, GrumpkinBabyGiant, Jacobian, Point, PointParseError};

fn jac(p: &Point) -> Jacobian {
    Jacobian::from_affine(p)
}
use baby_giant::BabyGiantOps;

#[test]
fn grumpkin_bsgs_40() {
    let mut grumpy_bsgs = GrumpkinBabyGiant::new(1_048_576);

    let x_num = 840368900803_u64;
    let target = grumpkin_point(x_num);

    let res = grumpy_bsgs.run(jac(&g()), jac(&target));

    println!("Result: {:?}", res);

    assert!(res.unwrap() == x_num, "Incorrect result");
}

#[test]
fn grumpkin_bsgs_32() {
    let mut grumpy_bsgs = GrumpkinBabyGiant::new(65536);

    let x_num = 4294967295_u64;
    let target = grumpkin_point(x_num);

    let res = grumpy_bsgs.run(jac(&g()), jac(&target));

    println!("Result: {:?}", res);

    assert!(res.unwrap() == x_num, "Incorrect result");
}

#[test]
fn grumpkin_baby_steps() {
    let mut grumpy_bsgs = GrumpkinBabyGiant::new(32);

    grumpy_bsgs.baby_steps(&jac(&g()));

    println!("Baby steps: {:?}", grumpy_bsgs.get_baby_steps());
}

#[test]
fn baby_step_encodings_are_x_coordinates() {
    let mut solver = GrumpkinBabyGiant::new(4);
    solver.baby_steps(&jac(&g()));
    let keys = solver.get_baby_steps();
    assert_eq!(keys.len(), 4);
    for (i, key) in keys.iter().enumerate() {
        assert_eq!(*key, grumpkin_point(i as u64 + 1).x);
        assert_eq!(solver.in_baby_steps(&jac(&grumpkin_point(i as u64 + 1))), Some(i as u64 + 1));
    }
    assert_eq!(solver.in_baby_steps(&jac(&grumpkin_point(5))), None);
}

#[test]
fn a_point_and_its_negation_share_a_key() {
    let mut solver = GrumpkinBabyGiant::new(4);
    solver.baby_steps(&jac(&g()));
    let jump = solver.giant_step_jump(&jac(&g()));
    assert_eq!(jump.to_affine().x, grumpkin_point(4).x);
    assert_ne!(jump.to_affine().y, grumpkin_point(4).y);
    assert_eq!(solver.in_baby_steps(&jump), Some(4));
    assert_eq!(solver.el_operation(&jac(&grumpkin_point(4)), &jump).to_affine(), grumpkin_point(0));
    assert!(grumpkin_point(0).infinity);
    assert_eq!(solver.process_result(3, 2), 11);
}

#[test]
fn addition_matches_scalar_multiples() {
    let solver = GrumpkinBabyGiant::new(4);
    assert_eq!(solver.el_operation(&jac(&grumpkin_point(2)), &jac(&grumpkin_point(3))).to_affine(), grumpkin_point(5));
    assert_eq!(solver.el_operation(&jac(&g()), &jac(&g())).to_affine(), grumpkin_point(2));
    assert_eq!(jac(&g()).to_affine(), g());
    assert_eq!(jac(&grumpkin_point(0)), Jacobian { x: [1, 0, 0, 0], y: [1, 0, 0, 0], z: [0, 0, 0, 0] });
}

#[test]
fn grumpkin_bsgs_from_decimal_coordinates() {
    let target = grumpkin_str_to_point(
        "18404411293574529506939754020345889193409751730106812839425939610401353525304",
        "18142326956230734014841872757503391093517090171806600353970481267506310918723",
    )
    .unwrap();
    assert_eq!(baby_giant::grumpkin::grumpkin_bsgs_32(target), Some(35235));
}

#[test]
fn generator_coordinates() {
    let p = g();
    assert_eq!(p.x, [1, 0, 0, 0]);
    assert_eq!(p.y, [0x833fc48d823f272c, 0x2d270d45f1181294, 0xcf135e7506a45d63, 0x2]);
    assert!(!p.infinity);
}

#[test]
fn point_of_one_is_the_generator() {
    assert_eq!(grumpkin_point(1), g());
}

#[test]
fn decimal_coordinates_of_the_generator() {
    let p = grumpkin_str_to_point("1", "17631683881184975370165255887551781615748388533673675138860").unwrap();
    assert_eq!(p, g());
    let q = grumpkin_str_to_point("+1", "17_631683881184975370165255887551781615748388533673675138860").unwrap();
    assert_eq!(q, g());
}

#[test]
fn malformed_coordinates_are_rejected() {
    assert_eq!(grumpkin_str_to_point("", "1"), Err(PointParseError::InvalidInteger));
    assert_eq!(grumpkin_str_to_point("1", "x1"), Err(PointParseError::InvalidInteger));
    assert_eq!(grumpkin_str_to_point("-1", "1"), Err(PointParseError::InvalidInteger));
    assert_eq!(grumpkin_str_to_point("_1", "1"), Err(PointParseError::InvalidInteger));
    assert_eq!(grumpkin_str_to_point("++1", "1"), Err(PointParseError::InvalidInteger));
    assert_eq!(
        grumpkin_str_to_point("1", "115792089237316195423570985008687907853269984665640564039457584007913129639936"),
        Err(PointParseError::InvalidInteger)
    );
}

#[test]
fn coordinates_outside_the_field_are_rejected() {
    assert_eq!(
        grumpkin_str_to_point("21888242871839275222246405745257275088548364400416034343698204186575808495617", "1"),
        Err(PointParseError::OutOfField)
    );
    assert_eq!(
        grumpkin_str_to_point("1", "115792089237316195423570985008687907853269984665640564039457584007913129639935"),
        Err(PointParseError::OutOfField)
    );
    assert!(grumpkin_str_to_point("21888242871839275222246405745257275088548364400416034343698204186575808495616", "0").is_ok());
}

#[test]
fn small_exponents_are_found() {
    for x in [1_u64, 2, 3, 15, 16, 17, 255, 256] {
        assert_eq!(grumpkin_bsgs(grumpkin_point(x), 16), Some(x));
    }
}

#[test]
fn exponents_past_the_window_are_not_found() {
    assert_eq!(grumpkin_bsgs(grumpkin_point(257), 16), None);
    assert_eq!(grumpkin_bsgs(grumpkin_point(1000), 16), None);
}

#[test]
fn repeated_searches_agree() {
    let mut solver = GrumpkinBabyGiant::new(64);
    let target = jac(&grumpkin_point(3000));
    let first = solver.run(jac(&g()), target);
    let second = solver.run(jac(&g()), target);
    assert_eq!(first, Some(3000));
    assert_eq!(first, second);
    let mut fresh = GrumpkinBabyGiant::new(64);
    assert_eq!(fresh.run(jac(&g()), target), first);
}

#[test]
fn baby_steps_across_several_batches() {
    let mut solver = GrumpkinBabyGiant::new(10_000);
    solver.baby_steps(&jac(&g()));
    assert_eq!(solver.get_baby_steps().len(), 10_000);
    for x in [1_u64, 4095, 4096, 4097, 8192, 9999, 10_000] {
        assert_eq!(solver.in_baby_steps(&jac(&grumpkin_point(x))), Some(x));
        assert_eq!(solver.get_baby_steps()[x as usize - 1], grumpkin_point(x).x);
    }
}
