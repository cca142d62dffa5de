use track_mapper::command_handler::{Cmd, Cmdr};

fn hhhh() -> Result<String, u16> {
    Ok("dsdf".to_string())
}

#[test]
fn xx() {
    let mut cmdr = Cmdr::new();
    cmdr.add("hhhh", hhhh);
    cmdr.invoke("hhh");
}

#[test]
fn cmdr() {
    let mut ddd: Vec<String> = Vec::new();
    ddd.push(String::from("+++"));
}

type Boxed = Box<dyn FnMut() -> Result<&'static str, i32>>;

#[test]
fn ppp() {
    let mut cmdr: Cmdr<Boxed> = Cmdr::new();
    cmdr.add("test1", Box::new(|| Ok("test1 executed.")));
    cmdr.add("test2", Box::new(|| Err(42)));

    // Good commands.
    let test1_msg = cmdr.invoke("test1");
    assert_eq!(test1_msg, Some(Ok("test1 executed.")), "Incorrect test1 message.");

    let test2_msg = cmdr.invoke("test2");
    assert_eq!(test2_msg, Some(Err(42)));

    // Bad command.
    assert!(cmdr.invoke("ghost").is_none(), "Non-existent command somehow returned Some().");
}

#[test]
fn unknown_name_on_empty_registry_is_none() {
    let mut cmdr: Cmdr<Boxed> = Cmdr::new();
    assert_eq!(cmdr.invoke(""), None);
    assert_eq!(cmdr.invoke("test1"), None);
}

#[test]
fn earliest_command_with_a_name_wins() {
    let mut cmdr: Cmdr<Boxed> = Cmdr::new();
    cmdr.add("dup", Box::new(|| Ok("first")));
    cmdr.add("dup", Box::new(|| Ok("second")));
    assert_eq!(cmdr.invoke("dup"), Some(Ok("first")));
    // Names are matched whole, not by prefix.
    assert_eq!(cmdr.invoke("du"), None);
    assert_eq!(cmdr.invoke("dupe"), None);
}

#[test]
fn added_name_is_found_after_others() {
    let mut cmdr: Cmdr<Boxed> = Cmdr::new();
    cmdr.add("a", Box::new(|| Err(1)));
    cmdr.add("b", Box::new(|| Ok("b ran")));
    assert_eq!(cmdr.invoke("b"), Some(Ok("b ran")));
    assert_eq!(cmdr.invoke("a"), Some(Err(1)));
}

#[test]
fn closures_keep_their_state_between_calls() {
    let mut count = 0;
    let mut cmdr = Cmdr::new();
    cmdr.add("tick", move || -> Result<i32, ()> {
        count += 1;
        Ok(count)
    });
    assert_eq!(cmdr.invoke("tick"), Some(Ok(1)));
    assert_eq!(cmdr.invoke("tick"), Some(Ok(2)));
}

#[test]
fn single_command_runs_its_closure() {
    let mut cmd = Cmd::new("one", || -> Result<u8, u8> { Ok(7) });
    assert_eq!(cmd.name, "one");
    assert_eq!(cmd.invoke(), Ok(7));
}
