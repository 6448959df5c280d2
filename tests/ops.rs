use sodg::{Hex, Sodg, SodgError};

#[test]
fn adds_simple_vertex() -> Result<(), SodgError> {
    let mut g = Sodg::empty();
    g.add(1)?;
    assert_eq!(1, g.find(1, "")?);
    Ok(())
}

#[test]
fn binds_simple_vertices() -> Result<(), SodgError> {
    let mut g = Sodg::empty();
    g.add(1)?;
    g.add(2)?;
    let k = "hello";
    g.bind(1, 2, k)?;
    assert_eq!(2, g.find(1, k)?);
    Ok(())
}

#[test]
fn pre_defined_ids() -> Result<(), SodgError> {
    let mut g = Sodg::empty();
    g.add(1)?;
    g.add(2)?;
    let k = "a-привет";
    g.bind(1, 2, k)?;
    assert_eq!(2, g.find(1, k)?);
    Ok(())
}

#[test]
fn binds_two_names() -> Result<(), SodgError> {
    let mut g = Sodg::empty();
    g.add(1)?;
    g.add(2)?;
    g.bind(1, 2, "first")?;
    g.bind(1, 2, "second")?;
    assert_eq!(2, g.find(1, "first")?);
    assert_eq!(2, g.find(1, "second")?);
    Ok(())
}

#[test]
fn overwrites_edge() -> Result<(), SodgError> {
    let mut g = Sodg::empty();
    g.add(1)?;
    g.add(2)?;
    g.bind(1, 2, "foo")?;
    g.add(3)?;
    g.bind(1, 3, "foo")?;
    assert_eq!(3, g.kid(1, "foo").unwrap());
    Ok(())
}

#[test]
fn binds_to_root() -> Result<(), SodgError> {
    let mut g = Sodg::empty();
    g.add(0)?;
    g.add(1)?;
    g.bind(0, 1, "x")?;
    assert!(g.kid(0, "ρ").is_none());
    assert!(g.kid(0, "σ").is_none());
    Ok(())
}

#[test]
fn sets_simple_data() -> Result<(), SodgError> {
    let mut g = Sodg::empty();
    let data = Hex::from_str_bytes("hello");
    g.add(0)?;
    g.put(0, &data)?;
    assert_eq!(data, g.data(0)?);
    Ok(())
}

#[test]
fn simple_data_gc() -> Result<(), SodgError> {
    let mut g = Sodg::empty();
    g.gc_on();
    let data = Hex::from_str_bytes("hello");
    g.add(0)?;
    g.put(0, &data)?;
    assert_eq!(data, g.data(0)?);
    assert!(g.is_empty());
    Ok(())
}

#[test]
fn finds_all_kids() -> Result<(), SodgError> {
    let mut g = Sodg::empty();
    g.add(0)?;
    g.add(1)?;
    g.bind(0, 1, "one")?;
    g.bind(0, 1, "two")?;
    assert_eq!(2, g.kids(0)?.len());
    let (a, to) = g.kids(0)?.first().unwrap().clone();
    assert_eq!("one", a);
    assert_eq!(1, to);
    Ok(())
}

#[test]
fn builds_list_of_kids() -> Result<(), SodgError> {
    let mut g = Sodg::empty();
    g.alerts_off();
    g.add(0)?;
    g.add(1)?;
    g.bind(0, 1, "one")?;
    g.bind(0, 1, "two")?;
    g.bind(0, 1, "three")?;
    let names: Vec<String> = g.kids(0)?.into_iter().map(|(a, _)| a).collect();
    assert_eq!("one,two,three", names.join(","));
    Ok(())
}

#[test]
fn gets_data_from_empty_vertex() -> Result<(), SodgError> {
    let mut g = Sodg::empty();
    g.add(0)?;
    assert!(g.data(0).is_ok());
    assert!(g.data(0).unwrap().is_empty());
    Ok(())
}

#[test]
fn gets_absent_kid() -> Result<(), SodgError> {
    let mut g = Sodg::empty();
    g.add(0)?;
    assert!(g.kid(0, "hello").is_none());
    Ok(())
}

#[test]
fn gets_kid_from_absent_vertex() -> Result<(), SodgError> {
    let g = Sodg::empty();
    assert!(g.kid(0, "hello").is_none());
    Ok(())
}

#[test]
fn adds_twice() -> Result<(), SodgError> {
    let mut g = Sodg::empty();
    g.add(0)?;
    assert!(g.add(0).is_ok());
    Ok(())
}
