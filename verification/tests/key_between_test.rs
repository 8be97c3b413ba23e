use lexicon_fractional_index::{key_between, n_keys_between};

fn key_check(a: Option<&str>, b: Option<&str>, exp: &str) -> Result<(), String> {
    match key_between(&a.map(ToOwned::to_owned), &b.map(ToOwned::to_owned)) {
        Ok(act) => {
            assert_eq!(exp, act)
        }
        Err(err) => {
            assert_eq!(exp, err)
        }
    }
    Ok(())
}

#[test]
fn keys_test() -> Result<(), String> {
    key_check(None, None, "a0")?;
    key_check(None, Some("a0"), "Zz")?;
    key_check(None, Some("Zz"), "Zy")?;
    key_check(Some("a0"), None, "a1")?;
    key_check(Some("a1"), None, "a2")?;
    key_check(Some("a0"), Some("a1"), "a0V")?;
    key_check(Some("a1"), Some("a2"), "a1V")?;
    key_check(Some("a0V"), Some("a1"), "a0l")?;
    key_check(Some("Zz"), Some("a0"), "ZzV")?;
    key_check(Some("Zz"), Some("a1"), "a0")?;
    key_check(None, Some("Y00"), "Xzzz")?;
    key_check(Some("bzz"), None, "c000")?;
    key_check(Some("a0"), Some("a0V"), "a0G")?;
    key_check(Some("a0"), Some("a0G"), "a08")?;
    key_check(Some("b125"), Some("b129"), "b127")?;
    key_check(Some("a0"), Some("a1V"), "a1")?;
    key_check(Some("Zz"), Some("a01"), "a0")?;
    key_check(None, Some("a0V"), "a0")?;
    key_check(None, Some("b999"), "b99")?;
    key_check(
        None,
        Some("A00000000000000000000000000"),
        "invalid order key: A00000000000000000000000000",
    )?;
    key_check(
        None,
        Some("A000000000000000000000000001"),
        "A000000000000000000000000000V",
    )?;
    key_check(
        Some("zzzzzzzzzzzzzzzzzzzzzzzzzzy"),
        None,
        "zzzzzzzzzzzzzzzzzzzzzzzzzzz",
    )?;
    key_check(
        Some("zzzzzzzzzzzzzzzzzzzzzzzzzzz"),
        None,
        "zzzzzzzzzzzzzzzzzzzzzzzzzzzV",
    )?;
    key_check(Some("a00"), None, "invalid order key: a00")?;
    key_check(Some("a00"), Some("a1"), "invalid order key: a00")?;
    key_check(Some("0"), Some("1"), "invalid order key head: 0")?;
    key_check(Some("a1"), Some("a0"), "invalid order: a1 >= a0")?;
    Ok(())
}

fn n_keys_check(a: Option<&str>, b: Option<&str>, n: usize, exp: &str) -> Result<(), String> {
    match n_keys_between(&a.map(ToOwned::to_owned), &b.map(ToOwned::to_owned), n) {
        Ok(act_slice) => {
            let act = act_slice.join(" ");
            assert_eq!(exp, act);
        }
        Err(err) => {
            assert_eq!(exp, err)
        }
    }

    Ok(())
}

#[test]
fn test_n_keys() -> Result<(), String> {
    n_keys_check(None, None, 5, "a0 a1 a2 a3 a4")?;
    n_keys_check(Some("a4"), None, 10, "a5 a6 a7 a8 a9 aA aB aC aD aE")?;
    n_keys_check(None, Some("a0"), 5, "Zv Zw Zx Zy Zz")?;
    n_keys_check(
        Some("a0"),
        Some("a2"),
        20,
        "a04 a08 a0G a0K a0O a0V a0Z a0d a0l a0t a1 a14 a18 a1G a1O a1V a1Z a1d a1l a1t",
    )?;

    Ok(())
}
