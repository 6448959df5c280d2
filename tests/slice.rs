use sodg::{Sodg, SodgError};

#[test]
fn makes_a_slice() -> Result<(), SodgError> {
    let mut g = Sodg::empty();
    g.add(0)?;
    g.add(1)?;
    g.bind(0, 1, "foo")?;
    g.add(2)?;
    g.bind(0, 2, "bar")?;
    assert_eq!(1, g.slice("foo")?.vertices.len());
    assert_eq!(1, g.slice("bar")?.vertices.len());
    Ok(())
}

#[test]
fn makes_a_partial_slice() -> Result<(), SodgError> {
    let mut g = Sodg::empty();
    g.add(0)?;
    g.add(1)?;
    g.bind(0, 1, "foo")?;
    g.add(2)?;
    g.bind(1, 2, "bar")?;
    let slice = g.slice_some("foo", |_v, _to, _a| false)?;
    assert_eq!(1, slice.vertices.len());
    Ok(())
}

#[test]
fn skips_some_vertices() -> Result<(), SodgError> {
    let mut g = Sodg::empty();
    g.add(0)?;
    g.add(1)?;
    g.bind(0, 1, "foo")?;
    g.add(2)?;
    g.bind(0, 2, "+bar")?;
    let slice = g.slice_some("ν0", |_, _, a| !a.starts_with('+'))?;
    assert_eq!(2, slice.vertices.len());
    Ok(())
}
