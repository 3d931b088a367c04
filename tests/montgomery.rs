use ramp::mtgy::{normalize, Modulus, MtgyModulus};
use ramp::redc::{inv1, single_limb_montgomery_inverse};

/// Limbs of a decimal number, least significant first, without zero limbs at the top.
fn parse(s: &str) -> Vec<u64> {
    let mut v: Vec<u64> = Vec::new();
    for ch in s.chars() {
        let d = ch.to_digit(10).expect("decimal digit") as u128;
        let mut carry = d;
        for limb in v.iter_mut() {
            let t = (*limb as u128) * 10 + carry;
            *limb = t as u64;
            carry = t >> 64;
        }
        if carry != 0 {
            v.push(carry as u64);
        }
    }
    v
}

fn check_conversions(a: &str, m: &str) {
    let a = parse(a);
    let m = parse(m);
    let mg = MtgyModulus::new(&m);
    let back = mg.to_int(&mg.to_mtgy(&a));
    assert_eq!(back, a);
}

fn check_product(a: &str, b: &str, m: &str, x: &str) {
    let a = parse(a);
    let b = parse(b);
    let m = parse(m);
    let x = parse(x);
    let mg = MtgyModulus::new(&m);
    let a_bar = mg.to_mtgy(&a);
    let b_bar = mg.to_mtgy(&b);
    let ab_bar = mg.mul(&a_bar, &b_bar);
    let ab = mg.to_int(&ab_bar);
    assert_eq!(ab, x);
}

#[test]
fn test_inv1() {
    assert_eq!(inv1(23).wrapping_mul(23), 1);
}

#[test]
fn test_inv1_64() {
    assert_eq!(inv1(193514046488575).wrapping_mul(193514046488575), 1);
}

#[test]
fn test_single_limb_montgomery_inverse() {
    assert_eq!(single_limb_montgomery_inverse(23).wrapping_mul(23), 1);
    assert_eq!(single_limb_montgomery_inverse(193514046488575).wrapping_mul(193514046488575), 1);
}

#[test]
fn inv1_of_extreme_limbs() {
    assert_eq!(inv1(1), 1);
    assert_eq!(inv1(!0), !0);
    assert_eq!(inv1(0x8000_0000_0000_0001).wrapping_mul(0x8000_0000_0000_0001), 1);
}

fn check_redc(a_bar: &str, m: &str, x_bar: &str) {
    let a = parse(a_bar);
    let m = parse(m);
    let x = parse(x_bar);
    let r = m.len();
    let mut t = vec![0u64; 2 * r + 1];
    t[..a.len()].copy_from_slice(&a);
    let nquote0 = inv1(m[0].wrapping_neg());
    let mut w = vec![0u64; r];
    ramp::redc::redc(&mut w, r, &m, nquote0, &mut t);
    assert_eq!(normalize(&w), x);
}

#[test]
fn redc() {
    check_redc("1547425065876476735897735405", "193514046488575", "87960930698705");
}

#[test]
fn test_montgomery_redc() {
    check_redc("1547425065876476735897735405", "193514046488575", "87960930698705");
}

#[test]
fn cvt() {
    let cases = [
        ("1", "1009"),
        ("15", "1009"),
        ("9330786055998253486590", "4349330786055998253486590232462401"),
        ("7", "9"),
        ("6", "4053222090678603523540592804780123937619987201526761"),
    ];
    for &(a, m) in &cases {
        check_conversions(a, m);
    }
}

#[test]
fn test_montgomery_cvt() {
    let cases = [("7", "9"), ("6", "4053222090678603523540592804780123937619987201526761")];
    for &(a, m) in &cases {
        check_conversions(a, m);
    }
}

#[test]
fn mul() {
    let cases = [
        ("1", "2", "13", "2"),
        ("1", "1", "13", "1"),
        ("7", "7", "13", "10"),
        ("2", "13", "207", "26"),
        ("1", "1", "1009", "1"),
        ("2", "10", "1009", "20"),
        ("5", "1", "193514046488575", "5"),
        ("15", "1", "4349330786055998253486590232462401", "15"),
        ("15", "10", "1475703270992002140168997557525132617116077748043980354291003276386587324053694848174953095546817655706234979251318204003655882580688895", "150"),
        ("148677972634832330983979593310074301486537017973460461278300587514468301043894574906886127642530475786889672304776052879927627556769456140664043088700743909632312483413393134504352834240399191134336344285483935856491230340093391784574980688823380828143810804684752914935441384845195613674104960646037368551517",
         "158741574437007245654463598139927898730476924736461654463975966787719309357536545869203069369466212089132653564188443272208127277664424448947476335413293018778018615899291704693105620242763173357203898195318179150836424196645745308205164116144020613415407736216097185962171301808761138424668335445923774195463",
         "446397596678771930935753654586920306936946621208913265356418844327220812727766442444894747633541329301877801861589929170469310562024276317335720389819531817915083642419664574530820516411614402061341540773621609718596217130180876113842466833544592377419546315874157443700724565446359813992789873047692473646165446397596678771930935753654586920306936946621208913265356418844327220812727766442444894747633541329301877801861589929170469310562045923774195463",
         "157330335424285563266107752264282502919500909843774676440968379260729855385757296545072743183809174890631042593054232804564428009459428952380420588404540083723320848855612172087517363909606183916778041064119979529399788625431724844835755688269837030055154002303433512249948540329143791713246848102532770490137171912520566414419291489511894925716605685210349843822514310138216212323303683754146084454361295646557462263542138176646203699553393662651092450"),
    ];
    for &(a, b, m, x) in &cases {
        check_product(a, b, m, x);
    }
}

#[test]
fn test_montgomery_mul() {
    // a * b mod m for the two cases.
    check_product("2", "13", "207", "26");
    check_product("5", "1", "193514046488575", "5");
}

#[test]
fn square_matches_product() {
    let m = parse("4349330786055998253486590232462401");
    let mg = MtgyModulus::new(&m);
    let a_bar = mg.to_mtgy(&parse("9330786055998253486590"));
    let s = mg.to_int(&mg.sqr(&a_bar));
    let p = mg.to_int(&mg.mul(&a_bar, &a_bar));
    assert_eq!(s, p);
}

#[test]
fn pow_small() {
    // 5^7 = 78125 = 8 mod 13
    let mg = MtgyModulus::new(&vec![13]);
    let a_bar = mg.to_mtgy(&vec![5]);
    let r = mg.to_int(&mg.pow(&a_bar, &vec![7]));
    assert_eq!(r, vec![8]);
}

#[test]
fn pow_in_montgomery_form_1009() {
    // 2^10 = 1024 = 15 mod 1009
    let mg = MtgyModulus::new(&vec![1009]);
    let two = mg.to_mtgy(&vec![2]);
    let p = mg.pow(&two, &vec![10]);
    assert_eq!(p.to_limbs(), mg.to_mtgy(&vec![1024]).to_limbs());
    assert_eq!(mg.to_int(&p), vec![15]);
}

#[test]
fn pow_exponent_zero_and_modulus_one() {
    let mg = MtgyModulus::new(&vec![1009]);
    let a = mg.to_mtgy(&vec![77]);
    assert_eq!(mg.to_int(&mg.pow(&a, &vec![])), vec![1]);
    assert_eq!(mg.to_int(&mg.pow(&a, &vec![0, 0])), vec![1]);
    let one = MtgyModulus::new(&vec![1]);
    let b = one.to_mtgy(&vec![5]);
    assert_eq!(one.to_int(&one.pow(&b, &vec![3])), Vec::<u64>::new());
}

#[test]
fn pow_partial_top_window() {
    // exponent 2^6 + 1 = 65 (7 bits, not a multiple of the window width)
    let mg = MtgyModulus::new(&vec![1_000_003]);
    let a = mg.to_mtgy(&vec![3]);
    let mut expect: u128 = 1;
    for _ in 0..65 {
        expect = expect * 3 % 1_000_003;
    }
    assert_eq!(mg.to_int(&mg.pow(&a, &vec![65])), vec![expect as u64]);
}

#[test]
fn pow_fermat_on_a_large_prime() {
    // 2^521 - 1 is prime, so 3^(p - 1) = 1 mod p.
    let mut p = vec![!0u64; 8];
    p.push(0x1ff);
    let mut e = p.clone();
    e[0] = !0 - 1;
    let mg = MtgyModulus::new(&p);
    let a = mg.to_mtgy(&vec![3]);
    assert_eq!(mg.to_int(&mg.pow(&a, &e)), vec![1]);
    // and 3^p = 3 mod p
    assert_eq!(mg.to_int(&mg.pow(&a, &p)), vec![3]);
}

#[test]
fn to_mtgy_reduces_large_inputs() {
    // a >= N is reduced first: (1009 * 5 + 2) R mod 1009 == 2 R mod 1009.
    let mg = MtgyModulus::new(&vec![1009]);
    let big = mg.to_mtgy(&vec![1009 * 5 + 2, 0]);
    let small = mg.to_mtgy(&vec![2]);
    assert_eq!(big.to_limbs(), small.to_limbs());
    assert_eq!(mg.limbs(), 1);
}

#[test]
fn modulus_facade_round_trip_and_pow() {
    let m = Modulus::new(&parse("4053222090678603523540592804780123937619987201526761"));
    let a = parse("6");
    assert_eq!(m.to_natural(m.to_montgomery(&a)), a);
    let p = Modulus::new(&vec![13]);
    let five = p.to_montgomery(&vec![5]);
    assert_eq!(p.to_natural(p.pow(&five, &vec![7])), vec![8]);
    let sq = p.sqr(&five);
    let pr = p.mul(&five, &five);
    assert_eq!(p.to_natural(sq), p.to_natural(pr));
}
