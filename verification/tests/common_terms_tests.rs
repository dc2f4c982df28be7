use lambda_beavers::common_terms::{
    from_church, AND, AND_STR, CHURCH, CHURCH_STR, FALSE, FALSE_STR, IDENT, IDENT_STR, MULT,
    MULT_2, MULT_2_STR, MULT_STR, NOT, NOT_STR, OR, OR_STR, PLUS, PLUS_2, PLUS_2_STR, PLUS_STR,
    POW, POW_2, POW_2_STR, POW_3, POW_3_STR, POW_STR, SUCC, SUCC_STR, TRUE, TRUE_STR,
};
use lambda_beavers::debruijn::Debruijn;

fn parsed(s: &str) -> Debruijn {
    Debruijn::from_str(s).unwrap()
}

#[test]
fn common_terms_parse_correctly() {
    assert_eq!(IDENT(), parsed(&IDENT_STR()));
    assert_eq!(TRUE(), parsed(&TRUE_STR()));
    assert_eq!(FALSE(), parsed(&FALSE_STR()));
    assert_eq!(AND(), parsed(&AND_STR()));
    assert_eq!(OR(), parsed(&OR_STR()));
    assert_eq!(NOT(), parsed(&NOT_STR()));
    assert_eq!(SUCC(), parsed(&SUCC_STR()));
    assert_eq!(PLUS(), parsed(&PLUS_STR()));
    assert_eq!(PLUS_2(), parsed(&PLUS_2_STR()));
    assert_eq!(MULT(), parsed(&MULT_STR()));
    assert_eq!(MULT_2(), parsed(&MULT_2_STR()));
    assert_eq!(POW(), parsed(&POW_STR()));
    assert_eq!(POW_2(), parsed(&POW_2_STR()));
    assert_eq!(POW_3(), parsed(&POW_3_STR()));
}

#[test]
fn church_parses_correctly() {
    assert_eq!(CHURCH(0), parsed("λf.λx.x"));
    assert_eq!(CHURCH(1), parsed("λf.λx.f x"));
    assert_eq!(CHURCH(2), parsed("λf.λx.f (f x)"));
    assert_eq!(CHURCH(3), parsed("λf.λx.f (f (f x))"));
    assert_eq!(CHURCH(4), parsed("λf.λx.f (f (f (f x)))"));
    assert_eq!(CHURCH(5), parsed("λf.λx.f (f (f (f (f x))))"));

    assert_eq!(CHURCH(0), parsed(&CHURCH_STR(0)));
    assert_eq!(CHURCH(1), parsed(&CHURCH_STR(1)));
    assert_eq!(CHURCH(2), parsed(&CHURCH_STR(2)));
    assert_eq!(CHURCH(3), parsed(&CHURCH_STR(3)));
    assert_eq!(CHURCH(4), parsed(&CHURCH_STR(4)));
    assert_eq!(CHURCH(5), parsed(&CHURCH_STR(5)));
}

#[test]
fn church_2() {
    assert_eq!(from_church(&CHURCH(0)), Some(0));
    assert_eq!(from_church(&CHURCH(1)), Some(1));
    assert_eq!(from_church(&CHURCH(2)), Some(2));
    assert_eq!(from_church(&CHURCH(3)), Some(3));
    assert_eq!(from_church(&CHURCH(4)), Some(4));
    assert_eq!(from_church(&CHURCH(5)), Some(5));
    assert_eq!(from_church(&IDENT()), None);
    assert_eq!(from_church(&TRUE()), None);
    assert_eq!(from_church(&FALSE()), None);
    assert_eq!(from_church(&AND()), None);
    assert_eq!(from_church(&OR()), None);
    assert_eq!(from_church(&NOT()), None);
    let almost_church = parsed("λf.λx.f (f (f (f (f f))))");
    assert_eq!(from_church(&almost_church), None)
}

#[test]
fn church_numeral_text_has_expected_shape() {
    assert_eq!(CHURCH_STR(0), "λf.λx.x");
    assert_eq!(CHURCH_STR(2), "λf.λx.f (f x)");
    assert_eq!(from_church(&CHURCH(12)), Some(12));
}
