use migrations::sync::action::Action;

fn even_only(n: u32) -> Result<(), String> {
    if n % 2 == 0 {
        Ok(())
    } else {
        Err(n.to_string())
    }
}

#[test]
fn an_action_runs_its_closure_on_the_handle() {
    let action: Action<u32, String> = Action::new(even_only);
    assert_eq!(Ok(()), action.apply(4));
    let action: Action<u32, String> = Action::new(|n: u32| even_only(n + 1));
    assert_eq!(Err("5".to_owned()), action.apply(4));
}

#[test]
fn an_action_may_own_what_it_needs() {
    let message = String::from("used up");
    let action: Action<(), String> = Action::new(move |_| Err(message));
    assert_eq!(Err("used up".to_owned()), action.apply(()));
}
