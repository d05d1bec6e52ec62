use faine::Error;

fn returns_error() -> Result<(), Error> {
    Ok(())
}

fn returns_boxed_error() -> Result<(), Box<dyn std::fmt::Debug>> {
    returns_error().map_err(|e| Box::new(e) as Box<dyn std::fmt::Debug>)?;
    Ok(())
}

#[test]
fn test_error() {
    // only tests that the error type composes with `?`
    returns_boxed_error().unwrap();
}
