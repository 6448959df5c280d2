use sodg::{Sodg, SodgError};

#[test]
fn makes_a_clone() -> Result<(), SodgError> {
    let mut g = Sodg::empty();
    g.add(0)?;
    g.add(1)?;
    g.bind(0, 1, "foo")?;
    let c = g.clone();
    assert_eq!(2, c.vertices.len());
    Ok(())
}
