use mastermind::account::Account;
use mastermind::list::List;
use mastermind::store::{accounts_to_text, text_is_readable_exec};

fn three_players() -> List<Account> {
    let dan: Account = Account::new("bandicoot", "Dan", "4323", 100);
    let jorji: Account = Account::new("GG", "Jorji", "7656", 865);
    let lian: Account = Account::new("scarface", "Lian", "2653", 85);
    List::new().prepend(dan.clone()).prepend(jorji.clone()).prepend(lian.clone())
}

#[test]
fn save_user_data() {
    let accounts = three_players();
    let mut iter = accounts.next();
    assert_eq!(iter.next().unwrap().id, "scarface");
    let text = accounts.to_text();
    assert_eq!(
        text,
        "scarface,Lian,2653,85\nGG,Jorji,7656,865\nbandicoot,Dan,4323,100\n"
    );
}

#[test]
fn load_user_data() {
    let saved = three_players().to_text();
    assert!(text_is_readable_exec(&saved));
    let account_list: List<Account> = List::load_from_text(&saved);

    let id_to_find: &str = "GG";
    if let Some(account) = account_list.find_by_id(id_to_find) {
        println!("{}", account.to_string());
        assert_eq!(account.to_string(), "{ ID: GG, Name: Jorji, Pass: 7656, Score: 865 }");
    } else {
        panic!("Account not found.");
    }
}

#[test]
fn load_gives_saved_accounts_back_reversed() {
    let list = three_players();
    let loaded = List::load_from_text(&list.to_text());
    assert_eq!(loaded.to_text(), list.reverse().to_text());
}

#[test]
fn load_skips_lines_without_four_fields() {
    let text = "a,b,c,1\nnot a record\na,b,c,d,e\r\nx,y,z,2\r\n\n";
    let list = List::load_from_text(text);
    assert_eq!(list.to_text(), "x,y,z,2\na,b,c,1\n");
}

#[test]
fn load_reads_a_last_line_without_newline() {
    let list = List::load_from_text("p,q,r,7");
    assert_eq!(list.to_text(), "p,q,r,7\n");
    assert!(List::load_from_text("").head().is_none());
}

#[test]
fn unreadable_score_is_detected() {
    assert!(!text_is_readable_exec("a,b,c,x\n"));
    assert!(!text_is_readable_exec("a,b,c,\n"));
    assert!(!text_is_readable_exec("a,b,c, 5\n"));
    assert!(!text_is_readable_exec("a,b,c,4294967296\n"));
    assert!(text_is_readable_exec("a,b,c,4294967295\nshort line\n"));
    assert!(!Account::line_is_readable("a,b,c,-1"));
    assert!(Account::line_is_readable("a,b,c,+1"));
}

#[test]
fn from_line_reads_four_fields() {
    let a = Account::from_line("id,Full Name,pw,42").unwrap();
    assert_eq!(a.id, "id");
    assert_eq!(a.full_name, "Full Name");
    assert_eq!(a.password, "pw");
    assert_eq!(a.score, 42);
    assert!(Account::from_line("a,b,c").is_none());
    assert!(Account::from_line("").is_none());
    assert_eq!(Account::from_line(",,,0").unwrap().id, "");
}

#[test]
fn record_and_vector_text() {
    let a = Account::new("u", "N", "p", 0);
    assert_eq!(a.record(), "u,N,p,0\n");
    let v = vec![a.clone(), Account::new("v", "M", "q", 4294967295)];
    assert_eq!(accounts_to_text(&v), "u,N,p,0\nv,M,q,4294967295\n");
    assert_eq!(accounts_to_text(&Vec::new()), "");
}

#[test]
fn accounts_compare_by_all_fields() {
    let a = Account::new("u", "N", "p", 3);
    assert!(a == a.clone());
    assert!(a != Account::new("u", "N", "p", 4));
    assert!(a != Account::new("u", "N", "P", 3));
}

#[test]
fn players_and_updated_users() {
    let list = List::new()
        .prepend(Account::new("a", "A1", "p", 1))
        .prepend(Account::new("b", "B", "p", 2))
        .prepend(Account::new("a", "A2", "p", 3));
    let players = list.players("a");
    let names: Vec<&str> = players.iter().map(|p| p.full_name.as_str()).collect();
    assert_eq!(names, vec!["A2", "A1"]);
    let played = vec![Account::new("a", "A2", "p", 30), Account::new("a", "A1", "p", 10)];
    let updated = list.updated_users("a", &played);
    assert_eq!(accounts_to_text(&updated), "a,A2,p,30\nb,B,p,2\na,A1,p,10\n");
    assert!(list.players("zzz").is_empty());
    assert_eq!(accounts_to_text(&list.updated_users("zzz", &Vec::new())), list.to_text());
}

#[test]
fn load_from_lines_reads_given_lines() {
    let lines = vec!["a,b,c,1", "bad", "d,e,f,2"];
    let list = List::load_from_lines(&lines);
    assert_eq!(list.to_text(), "d,e,f,2\na,b,c,1\n");
}
