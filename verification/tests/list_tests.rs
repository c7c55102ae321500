use mastermind::account::Account;
use mastermind::list::List;

fn account(id: &str, name: &str, pass: &str, score: u32) -> Account {
    Account {
        id: id.to_owned(),
        full_name: name.to_owned(),
        password: pass.to_owned(),
        score,
    }
}

fn ids(list: &List<Account>) -> Vec<String> {
    let mut out = Vec::new();
    let mut it = list.next();
    while let Some(a) = it.next() {
        out.push(a.id.clone());
    }
    out
}

#[test]
fn list_adding_account_test() {
    let document1: Account = account("bandicoot", "dan", "4323", 0);
    let document2: Account = account("scarface", "lian", "7988", 10);

    let list: List<Account> = List::new().prepend(document1).prepend(document2);

    let shown = list.to_string();
    println!("{}", shown);
    assert_eq!(
        shown,
        "{ ID: scarface, Name: lian, Pass: 7988, Score: 10 } -> \
         { ID: bandicoot, Name: dan, Pass: 4323, Score: 0 } -> None"
    );
}

#[test]
fn iter_through_list_and_find() {
    let dan: Account = Account::new("bandicoot", "Dan", "4323", 52);
    let jorji: Account = Account::new("GG", "Jorji", "7656", 125);
    let lian: Account = Account::new("scarface", "Lian", "2653", 85);

    let accounts: List<Account> = List::new()
        .prepend(dan.clone())
        .prepend(jorji.clone())
        .prepend(lian.clone());

    let result: Option<&Account> = accounts.find(&lian);

    match result {
        Some(found) => {
            println!("{}", found.to_string());
            assert_eq!(found.to_string(), "{ ID: scarface, Name: Lian, Pass: 2653, Score: 85 }");
            assert!(*found == lian);
        }
        None => panic!("value not found"),
    }
}

#[test]
fn empty_list_has_no_head_and_shows_none() {
    let list: List<Account> = List::new();
    assert!(list.head().is_none());
    assert!(list.next().next().is_none());
    assert_eq!(list.to_string(), "None");
    assert!(list.tail().head().is_none());
}

#[test]
fn prepend_keeps_the_old_list() {
    let base = List::new().prepend(account("a", "A", "1", 1));
    let longer = base.prepend(account("b", "B", "2", 2));
    assert_eq!(ids(&base), vec!["a"]);
    assert_eq!(ids(&longer), vec!["b", "a"]);
    assert_eq!(longer.head().unwrap().id, "b");
    assert_eq!(ids(&longer.tail()), vec!["a"]);
}

#[test]
fn find_misses_an_absent_value() {
    let list = List::new().prepend(account("a", "A", "1", 1));
    assert!(list.find(&account("a", "A", "1", 2)).is_none());
}

#[test]
fn find_by_predicate_gives_the_first_match() {
    let list = List::new()
        .prepend(account("x", "first", "1", 5))
        .prepend(account("y", "second", "2", 7))
        .prepend(account("z", "third", "3", 5));
    let found = list.find_by_predicate(|a: &Account| a.score == 5).unwrap();
    assert_eq!(found.id, "z");
    assert!(list.find_by_predicate(|a: &Account| a.score == 9).is_none());
}

#[test]
fn find_by_id_gives_the_first_with_that_id() {
    let list = List::new()
        .prepend(account("dup", "older", "1", 1))
        .prepend(account("other", "x", "2", 2))
        .prepend(account("dup", "newer", "3", 3));
    assert_eq!(list.find_by_id("dup").unwrap().full_name, "newer");
    assert!(list.find_by_id("nobody").is_none());
    assert!(list.find_by_id("du").is_none());
}

#[test]
fn reverse_reverses_and_twice_restores() {
    let list = List::new()
        .prepend(account("a", "A", "1", 1))
        .prepend(account("b", "B", "2", 2))
        .prepend(account("c", "C", "3", 3));
    assert_eq!(ids(&list.reverse()), vec!["a", "b", "c"]);
    assert_eq!(ids(&list.reverse().reverse()), vec!["c", "b", "a"]);
}

#[test]
fn sort_by_id_gives_descending_ids_and_leader_board_ascending() {
    let list = List::new()
        .prepend(account("bandicoot", "Dan", "1", 52))
        .prepend(account("GG", "Jorji", "2", 125))
        .prepend(account("scarface", "Lian", "3", 85))
        .prepend(account("alpha", "Al", "4", 1));
    assert_eq!(ids(&list.sort_by_id()), vec!["scarface", "bandicoot", "alpha", "GG"]);
    assert_eq!(ids(&list.sort_by_id().reverse()), vec!["GG", "alpha", "bandicoot", "scarface"]);
}

#[test]
fn sort_by_id_is_stable() {
    let list = List::new()
        .prepend(account("same", "third", "1", 3))
        .prepend(account("same", "second", "1", 2))
        .prepend(account("a", "zero", "1", 0))
        .prepend(account("same", "first", "1", 1));
    let board = list.sort_by_id().reverse();
    let names: Vec<String> = board.to_vec().into_iter().map(|a| a.full_name).collect();
    assert_eq!(names, vec!["zero", "first", "second", "third"]);
}

#[test]
fn prefix_sorts_first() {
    let list = List::new()
        .prepend(account("ab", "", "", 0))
        .prepend(account("a", "", "", 0))
        .prepend(account("b", "", "", 0));
    assert_eq!(ids(&list.sort_by_id().reverse()), vec!["a", "ab", "b"]);
}

#[test]
fn stacked_reverses_a_vector() {
    let v = vec![account("a", "", "", 0), account("b", "", "", 0)];
    assert_eq!(ids(&List::stacked(&v)), vec!["b", "a"]);
}

#[test]
fn elements_walk_in_order() {
    let list: List<Account> = List::new()
        .prepend(account("x1", "", "", 1))
        .prepend(account("x2", "", "", 2))
        .prepend(account("x3", "", "", 3));
    let ids: Vec<&str> = list.elements().iter().map(|a| a.id.as_str()).collect();
    assert_eq!(ids, vec!["x3", "x2", "x1"]);
    let mut it = list.next();
    assert_eq!(it.next().unwrap().id, "x3");
    assert_eq!(it.next().unwrap().id, "x2");
    assert_eq!(it.next().unwrap().id, "x1");
    assert!(it.next().is_none());
    assert!(it.next().is_none());
    assert_eq!(list.elements().len(), 3);
}
