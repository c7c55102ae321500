//! The account store: a list of accounts, read from and written to the
//! account file's text, searched by id and ordered by id.

use vstd::prelude::*;
use crate::account::{
    account_of_line, line_is_readable, record_fields, record_of, shown, Account, AccountView,
};
use crate::list::List;
use crate::text::{
    decimal, is_digit, lemma_decimal_chars, lemma_parse_decimal, lemma_split_concat,
    lemma_split_nonempty, lemma_split_without_sep, lemma_text_le_reflexive, lemma_text_le_total,
    lemma_text_le_transitive, lines, lines_spec, same_text, split_spec, strip_cr, text_le,
    text_le_exec, views_of,
};

verus! {

/// What a sequence of accounts holds.
pub open spec fn views(s: Seq<Account>) -> Seq<AccountView> {
    s.map_values(|a: Account| a@)
}

/// The accounts of a file's lines as loading collects them: each line that
/// describes an account is put in front of those read before it.
pub open spec fn loaded(ls: Seq<Seq<char>>) -> Seq<AccountView>
    decreases ls.len(),
{
    if ls.len() == 0 {
        Seq::empty()
    } else {
        match account_of_line(ls.last()) {
            Some(a) => seq![a] + loaded(ls.drop_last()),
            None => loaded(ls.drop_last()),
        }
    }
}

/// Every line of the text is one that `Account::from_line` accepts.
pub open spec fn text_is_readable(text: Seq<char>) -> bool {
    forall|i: int| 0 <= i < lines_spec(text).len() ==> line_is_readable(#[trigger] lines_spec(text)[i])
}

/// The text that saves the accounts: one record line each, in order.
pub open spec fn records(s: Seq<AccountView>) -> Seq<char>
    decreases s.len(),
{
    if s.len() == 0 {
        Seq::empty()
    } else {
        records(s.drop_last()) + record_of(s.last())
    }
}

/// How a list of accounts is shown: each account followed by ` -> `, then `None`.
pub open spec fn shown_list(s: Seq<AccountView>) -> Seq<char>
    decreases s.len(),
{
    if s.len() == 0 {
        "None"@
    } else {
        shown(s[0]) + " -> "@ + shown_list(s.drop_first())
    }
}

/// `t`, ordered by id, with `a` put after every account whose id is not
/// above its own.
pub open spec fn insert_by_id(t: Seq<AccountView>, a: AccountView) -> Seq<AccountView>
    decreases t.len(),
{
    if t.len() == 0 {
        seq![a]
    } else if text_le(t.last().id, a.id) {
        t.push(a)
    } else {
        insert_by_id(t.drop_last(), a).push(t.last())
    }
}

/// The accounts ordered by id, ascending; accounts with the same id keep
/// their order (a stable sort).
pub open spec fn sorted_by_id(s: Seq<AccountView>) -> Seq<AccountView>
    decreases s.len(),
{
    if s.len() == 0 {
        Seq::empty()
    } else {
        insert_by_id(sorted_by_id(s.drop_last()), s.last())
    }
}

/// The ids never go down along the sequence.
pub open spec fn ids_ascending(s: Seq<AccountView>) -> bool {
    forall|i: int, j: int| 0 <= i <= j < s.len() ==> text_le(#[trigger] s[i].id, #[trigger] s[j].id)
}

/// A field that saves and loads back unchanged: it holds no comma and no
/// newline.
pub open spec fn field_is_plain(f: Seq<char>) -> bool {
    !f.contains(',') && !f.contains('\n')
}

/// Every text field of the account is plain.
pub open spec fn account_is_plain(a: AccountView) -> bool {
    field_is_plain(a.id) && field_is_plain(a.full_name) && field_is_plain(a.password)
}

/// The record of an account without its newline.
pub open spec fn record_line(a: AccountView) -> Seq<char> {
    a.id + seq![','] + a.full_name + seq![','] + a.password + seq![','] + decimal(a.score as nat)
}

proof fn lemma_split_append_field(x: Seq<char>, y: Seq<char>, sep: char)
    requires
        !y.contains(sep),
    ensures
        split_spec(x + seq![sep] + y, sep) == split_spec(x, sep).push(y),
{
    lemma_split_concat(x + seq![sep], y, sep);
    lemma_split_without_sep(y, sep);
    assert((x + seq![sep]).drop_last() =~= x);
    assert((x + seq![sep]).last() == sep);
    lemma_split_nonempty(x, sep);
    let px = split_spec(x, sep).push(Seq::<char>::empty());
    assert(split_spec(x + seq![sep], sep) == px);
    assert(px.drop_last() =~= split_spec(x, sep));
    assert(Seq::<char>::empty() + y =~= y);
    assert(seq![y].drop_first() =~= Seq::<Seq<char>>::empty());
    assert(split_spec(x, sep).push(y) + Seq::<Seq<char>>::empty() =~= split_spec(x, sep).push(y));
}

proof fn lemma_no_char_in_decimal(n: nat, c: char)
    requires
        !is_digit(c),
    ensures
        !decimal(n).contains(c),
{
    lemma_decimal_chars(n);
    if decimal(n).contains(c) {
        let k = choose|k: int| 0 <= k < decimal(n).len() && decimal(n)[k] == c;
        assert(is_digit(decimal(n)[k]));
    }
}

/// A plain account's record line reads back as the account.
pub proof fn lemma_record_line_reads_back(a: AccountView)
    requires
        account_is_plain(a),
    ensures
        record_fields(record_line(a)) == seq![a.id, a.full_name, a.password, decimal(a.score as nat)],
        line_is_readable(record_line(a)),
        account_of_line(record_line(a)) == Some(a),
{
    lemma_no_char_in_decimal(a.score as nat, ',');
    lemma_split_without_sep(a.id, ',');
    lemma_split_append_field(a.id, a.full_name, ',');
    lemma_split_append_field(a.id + seq![','] + a.full_name, a.password, ',');
    lemma_split_append_field(
        a.id + seq![','] + a.full_name + seq![','] + a.password,
        decimal(a.score as nat),
        ',',
    );
    assert(record_fields(record_line(a)) =~= seq![a.id, a.full_name, a.password, decimal(a.score as nat)]);
    lemma_parse_decimal(a.score as nat, u32::MAX as nat);
}

proof fn lemma_record_line_has_no_newline(a: AccountView)
    requires
        account_is_plain(a),
    ensures
        !record_line(a).contains('\n'),
        record_line(a).len() > 0,
        record_line(a).last() != '\r',
{
    lemma_no_char_in_decimal(a.score as nat, '\n');
    lemma_decimal_chars(a.score as nat);
    let l = record_line(a);
    let d = decimal(a.score as nat);
    assert(l.last() == d.last());
    assert(is_digit(d[d.len() - 1]));
    if l.contains('\n') {
        let k = choose|k: int| 0 <= k < l.len() && l[k] == '\n';
        let p1 = a.id;
        let p2 = p1 + seq![','] + a.full_name;
        let p3 = p2 + seq![','] + a.password;
        if k < p1.len() {
            assert(p1[k] == '\n');
        } else if k < p2.len() {
            if k > p1.len() {
                assert(a.full_name[k - p1.len() - 1] == '\n');
            }
        } else if k < p3.len() {
            if k > p2.len() {
                assert(a.password[k - p2.len() - 1] == '\n');
            }
        } else if k > p3.len() {
            assert(d[k - p3.len() - 1] == '\n');
        }
    }
}

/// The pieces of a saved text cut at its newlines: one record line per
/// account, then the empty piece after the last newline.
proof fn lemma_split_records(s: Seq<AccountView>)
    requires
        forall|i: int| 0 <= i < s.len() ==> account_is_plain(#[trigger] s[i]),
    ensures
        split_spec(records(s), '\n') == s.map_values(|a: AccountView| record_line(a)).push(
            Seq::<char>::empty(),
        ),
    decreases s.len(),
{
    if s.len() == 0 {
        assert(s.map_values(|a: AccountView| record_line(a)) =~= Seq::<Seq<char>>::empty());
    } else {
        let rest = s.drop_last();
        let a = s.last();
        assert(account_is_plain(s[s.len() - 1]));
        lemma_split_records(rest);
        lemma_record_line_has_no_newline(a);
        lemma_split_without_sep(record_line(a), '\n');
        lemma_split_append_field(record_line(a), Seq::<char>::empty(), '\n');
        assert(record_line(a) + seq!['\n'] + Seq::<char>::empty() =~= record_of(a));
        lemma_split_concat(records(rest), record_of(a), '\n');
        let before = rest.map_values(|a: AccountView| record_line(a));
        assert(split_spec(record_of(a), '\n') == seq![record_line(a), Seq::<char>::empty()]);
        assert(before.push(Seq::<char>::empty()).drop_last() =~= before);
        assert(Seq::<char>::empty() + record_line(a) =~= record_line(a));
        assert(seq![record_line(a), Seq::<char>::empty()].drop_first() =~= seq![Seq::<char>::empty()]);
        assert(s.map_values(|a: AccountView| record_line(a)) =~= before.push(record_line(a)));
        assert(split_spec(records(s), '\n') =~= before.push(record_line(a)).push(Seq::<char>::empty()));
    }
}

proof fn lemma_loaded_lines(s: Seq<AccountView>)
    requires
        forall|i: int| 0 <= i < s.len() ==> account_is_plain(#[trigger] s[i]),
    ensures
        loaded(s.map_values(|a: AccountView| record_line(a))) == s.reverse(),
    decreases s.len(),
{
    if s.len() > 0 {
        let ls = s.map_values(|a: AccountView| record_line(a));
        assert(ls.drop_last() =~= s.drop_last().map_values(|a: AccountView| record_line(a)));
        assert(account_is_plain(s[s.len() - 1]));
        lemma_record_line_reads_back(s.last());
        lemma_loaded_lines(s.drop_last());
        assert(s.reverse() =~= seq![s.last()] + s.drop_last().reverse());
    } else {
        assert(s.reverse() =~= Seq::<AccountView>::empty());
    }
}

/// Saving accounts and loading the saved text gives the accounts back, in
/// reverse order (loading puts each account in front of those before it),
/// provided no text field holds a comma or a newline.
pub proof fn lemma_load_saved(s: Seq<AccountView>)
    requires
        forall|i: int| 0 <= i < s.len() ==> account_is_plain(#[trigger] s[i]),
    ensures
        text_is_readable(records(s)),
        loaded(lines_spec(records(s))) == s.reverse(),
{
    lemma_split_records(s);
    let ls = s.map_values(|a: AccountView| record_line(a));
    let pieces = ls.push(Seq::<char>::empty());
    assert(pieces.drop_last() =~= ls);
    assert forall|i: int| 0 <= i < ls.len() implies strip_cr(#[trigger] ls[i]) == ls[i] by {
        assert(account_is_plain(s[i]));
        lemma_record_line_has_no_newline(s[i]);
    }
    assert(ls.map_values(|l: Seq<char>| strip_cr(l)) =~= ls);
    assert(lines_spec(records(s)) == ls);
    assert forall|i: int| 0 <= i < ls.len() implies line_is_readable(#[trigger] ls[i]) by {
        assert(account_is_plain(s[i]));
        lemma_record_line_reads_back(s[i]);
    }
    lemma_loaded_lines(s);
}

/// The leader board, ordered by id and reversed, lists the ids in
/// ascending order and holds the same accounts as the store.
pub proof fn lemma_leader_board_order(s: Seq<AccountView>)
    ensures
        sorted_by_id(s).reverse().reverse() == sorted_by_id(s),
        ids_ascending(sorted_by_id(s).reverse().reverse()),
        sorted_by_id(s).reverse().reverse().to_multiset() == s.to_multiset(),
{
    lemma_reverse_twice(sorted_by_id(s));
    lemma_sorted_by_id_ascending(s);
    lemma_sorted_by_id_permutation(s);
}

/// Reversing twice gives the sequence back.
pub proof fn lemma_reverse_twice(s: Seq<AccountView>)
    ensures
        s.reverse().reverse() == s,
{
    assert(s.reverse().reverse() =~= s);
}

/// The accounts with the given id, in order: those a game is played for.
pub open spec fn selected(s: Seq<AccountView>, id: Seq<char>) -> Seq<AccountView>
    decreases s.len(),
{
    if s.len() == 0 {
        Seq::empty()
    } else if s[0].id == id {
        seq![s[0]] + selected(s.drop_first(), id)
    } else {
        selected(s.drop_first(), id)
    }
}

/// The accounts after the games: each account with the given id is
/// replaced, in order, by the next of `played`; the others stay.
pub open spec fn with_played(s: Seq<AccountView>, id: Seq<char>, played: Seq<AccountView>) -> Seq<
    AccountView,
>
    decreases s.len(),
{
    if s.len() == 0 {
        Seq::empty()
    } else if s[0].id == id {
        seq![played[0]] + with_played(s.drop_first(), id, played.drop_first())
    } else {
        seq![s[0]] + with_played(s.drop_first(), id, played)
    }
}

/// The players are exactly the accounts with the id, in store order.
pub proof fn lemma_selected_is_filter(s: Seq<AccountView>, id: Seq<char>)
    ensures
        selected(s, id) == s.filter(has_id(id)),
    decreases s.len(),
{
    if s.len() == 0 {
        reveal(Seq::filter);
    } else {
        lemma_selected_is_filter(s.drop_first(), id);
        s.drop_first().lemma_filter_prepend(s[0], has_id(id));
        assert(seq![s[0]] + s.drop_first() =~= s);
        if s[0].id != id {
            assert(Seq::<AccountView>::empty() + s.drop_first().filter(has_id(id)) =~= s.drop_first().filter(
                has_id(id),
            ));
        }
    }
}

/// After the games the store keeps its length and order; an account
/// without the id is unchanged, and the `m`-th account with the id, counted
/// from 0 in store order, is replaced by `played[m]`.
pub proof fn lemma_with_played_replaces_in_order(
    s: Seq<AccountView>,
    id: Seq<char>,
    played: Seq<AccountView>,
)
    requires
        played.len() == s.filter(has_id(id)).len(),
    ensures
        with_played(s, id, played).len() == s.len(),
        forall|i: int|
            0 <= i < s.len() ==> (#[trigger] with_played(s, id, played)[i]) == (if s[i].id == id {
                played[s.take(i).filter(has_id(id)).len() as int]
            } else {
                s[i]
            }),
    decreases s.len(),
{
    if s.len() == 0 {
    } else {
        let rest = s.drop_first();
        let hit = s[0].id == id;
        rest.lemma_filter_prepend(s[0], has_id(id));
        assert(seq![s[0]] + rest =~= s);
        let p2 = if hit { played.drop_first() } else { played };
        assert(p2.len() == rest.filter(has_id(id)).len());
        lemma_with_played_replaces_in_order(rest, id, p2);
        let w = with_played(s, id, played);
        assert forall|i: int| 0 <= i < s.len() implies (#[trigger] w[i]) == (if s[i].id == id {
            played[s.take(i).filter(has_id(id)).len() as int]
        } else {
            s[i]
        }) by {
            if i == 0 {
                reveal(Seq::filter);
                assert(s.take(0) =~= Seq::<AccountView>::empty());
            } else {
                assert(w[i] == with_played(rest, id, p2)[i - 1]);
                assert(rest[i - 1] == s[i]);
                assert(s.take(i) =~= seq![s[0]] + rest.take(i - 1));
                rest.take(i - 1).lemma_filter_prepend(s[0], has_id(id));
                if s[i].id == id {
                    let m = rest.take(i - 1).filter(has_id(id)).len();
                    assert(rest.take(i - 1).filter(has_id(id)).len() <= rest.filter(has_id(id)).len()) by {
                        lemma_filter_take_len_le(rest, has_id(id), i - 1);
                    }
                    assert(m < rest.filter(has_id(id)).len()) by {
                        lemma_filter_take_len_lt(rest, has_id(id), i - 1);
                    }
                    if hit {
                        assert(Seq::<AccountView>::empty().push(s[0]) =~= seq![s[0]]);
                        assert((seq![s[0]] + rest.take(i - 1).filter(has_id(id))).len() == m + 1);
                        assert(p2[m as int] == played[m as int + 1]);
                    } else {
                        assert((Seq::<AccountView>::empty() + rest.take(i - 1).filter(has_id(id))).len() == m);
                    }
                }
            }
        }
    }
}

proof fn lemma_filter_take_len_le<A>(s: Seq<A>, p: spec_fn(A) -> bool, n: int)
    requires
        0 <= n <= s.len(),
    ensures
        s.take(n).filter(p).len() <= s.filter(p).len(),
    decreases s.len() - n,
{
    broadcast use Seq::lemma_filter_push;

    if n < s.len() {
        lemma_filter_take_len_le(s, p, n + 1);
        assert(s.take(n + 1) =~= s.take(n).push(s[n]));
    } else {
        assert(s.take(n) =~= s);
    }
}

proof fn lemma_filter_take_len_lt<A>(s: Seq<A>, p: spec_fn(A) -> bool, n: int)
    requires
        0 <= n < s.len(),
        p(s[n]),
    ensures
        s.take(n).filter(p).len() < s.filter(p).len(),
{
    broadcast use Seq::lemma_filter_push;

    lemma_filter_take_len_le(s, p, n + 1);
    assert(s.take(n + 1) =~= s.take(n).push(s[n]));
}

/// Whether an account has the id `k`.
pub open spec fn has_id(k: Seq<char>) -> spec_fn(AccountView) -> bool {
    |x: AccountView| x.id == k
}

/// Inserting by id keeps the accounts of each id in their order, the new
/// one after those already there.
pub proof fn lemma_insert_by_id_stable(t: Seq<AccountView>, a: AccountView, k: Seq<char>)
    ensures
        insert_by_id(t, a).filter(has_id(k)) == (if a.id == k {
            t.filter(has_id(k)).push(a)
        } else {
            t.filter(has_id(k))
        }),
    decreases t.len(),
{
    broadcast use Seq::lemma_filter_push;

    if t.len() == 0 {
        assert(seq![a] =~= t.push(a));
    } else if text_le(t.last().id, a.id) {
    } else {
        let rest = t.drop_last();
        let last = t.last();
        lemma_insert_by_id_stable(rest, a, k);
        assert(t =~= rest.push(last));
        if a.id == k && last.id == k {
            lemma_text_le_reflexive(k);
        }
    }
}

/// Ordering by id is stable: the accounts of any one id come out in the
/// order they went in.
pub proof fn lemma_sorted_by_id_stable(s: Seq<AccountView>, k: Seq<char>)
    ensures
        sorted_by_id(s).filter(has_id(k)) == s.filter(has_id(k)),
    decreases s.len(),
{
    broadcast use Seq::lemma_filter_push;

    if s.len() == 0 {
        reveal(Seq::filter);
    } else {
        lemma_sorted_by_id_stable(s.drop_last(), k);
        lemma_insert_by_id_stable(sorted_by_id(s.drop_last()), s.last(), k);
        assert(s =~= s.drop_last().push(s.last()));
    }
}

/// Inserting by id adds exactly the one account.
pub proof fn lemma_insert_by_id_multiset(t: Seq<AccountView>, a: AccountView)
    ensures
        insert_by_id(t, a).to_multiset() =~= t.to_multiset().insert(a),
    decreases t.len(),
{
    broadcast use vstd::seq_lib::group_to_multiset_ensures;
    broadcast use vstd::multiset::group_multiset_axioms;

    if t.len() == 0 {
        assert(seq![a] =~= Seq::<AccountView>::empty().push(a));
    } else if text_le(t.last().id, a.id) {
    } else {
        let rest = t.drop_last();
        lemma_insert_by_id_multiset(rest, a);
        assert(t =~= rest.push(t.last()));
    }
}

/// Inserting by id into an ascending sequence keeps it ascending.
pub proof fn lemma_insert_by_id_ascending(t: Seq<AccountView>, a: AccountView)
    requires
        ids_ascending(t),
    ensures
        ids_ascending(insert_by_id(t, a)),
    decreases t.len(),
{
    broadcast use vstd::seq_lib::group_to_multiset_ensures;
    broadcast use vstd::multiset::group_multiset_axioms;

    if t.len() == 0 {
        lemma_text_le_reflexive(a.id);
    } else if text_le(t.last().id, a.id) {
        let r = t.push(a);
        assert forall|i: int, j: int| 0 <= i <= j < r.len() implies text_le(
            #[trigger] r[i].id,
            #[trigger] r[j].id,
        ) by {
            if j == t.len() {
                if i == j {
                    lemma_text_le_reflexive(a.id);
                } else {
                    assert(text_le(t[i].id, t[t.len() - 1].id));
                    lemma_text_le_transitive(t[i].id, t.last().id, a.id);
                }
            } else {
                assert(text_le(t[i].id, t[j].id));
            }
        }
    } else {
        let rest = t.drop_last();
        let last = t.last();
        assert(ids_ascending(rest)) by {
            assert forall|i: int, j: int| 0 <= i <= j < rest.len() implies text_le(
                #[trigger] rest[i].id,
                #[trigger] rest[j].id,
            ) by {
                assert(text_le(t[i].id, t[j].id));
            }
        }
        lemma_insert_by_id_ascending(rest, a);
        lemma_insert_by_id_multiset(rest, a);
        lemma_text_le_total(last.id, a.id);
        let inner = insert_by_id(rest, a);
        let r = inner.push(last);
        assert forall|i: int, j: int| 0 <= i <= j < r.len() implies text_le(
            #[trigger] r[i].id,
            #[trigger] r[j].id,
        ) by {
            if j == inner.len() {
                if i == j {
                    lemma_text_le_reflexive(last.id);
                } else {
                    let x = inner[i];
                    assert(inner.contains(x));
                    assert(inner.to_multiset().count(x) > 0);
                    if x != a {
                        assert(rest.to_multiset().count(x) > 0);
                        assert(rest.contains(x));
                        let k = choose|k: int| 0 <= k < rest.len() && rest[k] == x;
                        assert(text_le(t[k].id, t[t.len() - 1].id));
                    }
                }
            } else {
                assert(text_le(inner[i].id, inner[j].id));
            }
        }
    }
}

/// Ordering by id gives the ids in ascending order.
pub proof fn lemma_sorted_by_id_ascending(s: Seq<AccountView>)
    ensures
        ids_ascending(sorted_by_id(s)),
    decreases s.len(),
{
    if s.len() > 0 {
        lemma_sorted_by_id_ascending(s.drop_last());
        lemma_insert_by_id_ascending(sorted_by_id(s.drop_last()), s.last());
    }
}

/// Ordering by id neither loses nor adds an account: the result holds the
/// same accounts, each as often.
pub proof fn lemma_sorted_by_id_permutation(s: Seq<AccountView>)
    ensures
        sorted_by_id(s).to_multiset() =~= s.to_multiset(),
    decreases s.len(),
{
    broadcast use vstd::seq_lib::group_to_multiset_ensures;

    if s.len() > 0 {
        lemma_sorted_by_id_permutation(s.drop_last());
        lemma_insert_by_id_multiset(sorted_by_id(s.drop_last()), s.last());
        assert(s =~= s.drop_last().push(s.last()));
    }
}

/// Inserts `a` after the last account whose id is not above its own.
fn insert_by_id_exec(sorted: &mut Vec<Account>, a: Account)
    ensures
        views(final(sorted)@) == insert_by_id(views(old(sorted)@), a@),
{
    let ghost t = views(sorted@);
    let mut p = sorted.len();
    assert(t.take(p as int) =~= t);
    assert(t.skip(p as int) =~= Seq::<AccountView>::empty());
    while p > 0 && !text_le_exec(sorted[p - 1].id.as_str(), a.id.as_str())
        invariant
            p <= sorted@.len(),
            t == views(sorted@),
            insert_by_id(t, a@) == insert_by_id(t.take(p as int), a@) + t.skip(p as int),
        decreases p,
    {
        assert(t[p - 1] == sorted@[p - 1]@);
        let ghost pre = t.take(p as int);
        assert(pre.drop_last() =~= t.take(p - 1));
        assert(pre.last() == t[p - 1]);
        assert(insert_by_id(pre, a@) == insert_by_id(t.take(p - 1), a@).push(t[p - 1]));
        assert(insert_by_id(t.take(p - 1), a@).push(t[p - 1]) + t.skip(p as int)
            =~= insert_by_id(t.take(p - 1), a@) + t.skip(p - 1));
        p = p - 1;
    }
    let ghost av = a@;
    if p > 0 {
        assert(t[p - 1] == sorted@[p - 1]@);
        assert(t.take(p as int).last() == t[p - 1]);
    }
    sorted.insert(p, a);
    assert(views(sorted@) =~= t.take(p as int).push(av) + t.skip(p as int));
}

/// Whether every line of `text` is one that `Account::from_line` accepts.
pub fn text_is_readable_exec(text: &str) -> (r: bool)
    ensures
        r == text_is_readable(text@),
{
    let ls = lines(text);
    let mut i: usize = 0;
    while i < ls.len()
        invariant
            i <= ls@.len(),
            views_of(ls@) == lines_spec(text@),
            forall|j: int| 0 <= j < i ==> line_is_readable(#[trigger] lines_spec(text@)[j]),
        decreases ls@.len() - i,
    {
        assert(views_of(ls@)[i as int] == ls@[i as int]@);
        if !Account::line_is_readable(ls[i]) {
            return false;
        }
        i = i + 1;
    }
    true
}

impl Account {
    /// Whether `Account::from_line` accepts `line`: it does not have four
    /// fields, or its fourth is a `u32` in decimal.
    pub fn line_is_readable(line: &str) -> (r: bool)
        ensures
            r == line_is_readable(line@),
    {
        let parts = crate::text::split(line, ',');
        if parts.len() == 4 {
            assert(views_of(parts@)[3] == parts@[3]@);
            crate::text::parse_u32(parts[3]).is_ok()
        } else {
            true
        }
    }
}

/// The save text of a vector of accounts.
pub fn accounts_to_text(accounts: &Vec<Account>) -> (r: String)
    ensures
        r@ == records(views(accounts@)),
{
    let mut out = String::new();
    let mut i: usize = 0;
    while i < accounts.len()
        invariant
            i <= accounts@.len(),
            out@ == records(views(accounts@).take(i as int)),
        decreases accounts@.len() - i,
    {
        let line = accounts[i].record();
        out.append(line.as_str());
        assert(views(accounts@).take(i + 1).drop_last() =~= views(accounts@).take(i as int));
        i = i + 1;
    }
    assert(views(accounts@).take(i as int) =~= views(accounts@));
    out
}

impl List<Account> {
    /// Loads the accounts that the lines of a saved text describe, the last
    /// line's account first; lines that do not have four fields are skipped.
    pub fn load_from_text(text: &str) -> (r: List<Account>)
        requires
            text_is_readable(text@),
        ensures
            views(r@) == loaded(lines_spec(text@)),
    {
        let ls = lines(text);
        assert forall|i: int| 0 <= i < ls@.len() implies line_is_readable(#[trigger] ls@[i]@) by {
            assert(views_of(ls@)[i] == ls@[i]@);
            assert(line_is_readable(lines_spec(text@)[i]));
        }
        List::load_from_lines(&ls)
    }

    /// Loads the accounts that the given lines describe, the last line's
    /// account first; lines that do not have four fields are skipped.
    pub fn load_from_lines(ls: &Vec<&str>) -> (r: List<Account>)
        requires
            forall|i: int| 0 <= i < ls@.len() ==> line_is_readable(#[trigger] ls@[i]@),
        ensures
            views(r@) == loaded(views_of(ls@)),
    {
        let ghost lv = views_of(ls@);
        let mut list = List::new();
        let mut i: usize = 0;
        while i < ls.len()
            invariant
                i <= ls@.len(),
                lv == views_of(ls@),
                forall|i: int| 0 <= i < ls@.len() ==> line_is_readable(#[trigger] ls@[i]@),
                views(list@) == loaded(lv.take(i as int)),
            decreases ls@.len() - i,
        {
            assert(lv[i as int] == ls@[i as int]@);
            assert(lv.take(i + 1).drop_last() =~= lv.take(i as int));
            match Account::from_line(ls[i]) {
                Some(account) => {
                    let ghost before = list@;
                    list = list.prepend(account);
                    assert(views(list@) =~= seq![account@] + views(before));
                },
                None => {},
            }
            i = i + 1;
        }
        assert(lv.take(i as int) =~= lv);
        list
    }

    /// The elements, cloned into a vector, head first.
    pub fn to_vec(&self) -> (r: Vec<Account>)
        ensures
            views(r@) == views(self@),
    {
        let mut out: Vec<Account> = Vec::new();
        let mut it = self.next();
        let ghost mut idx: int = 0;
        loop
            invariant
                0 <= idx <= self@.len(),
                it@ == self@.subrange(idx, self@.len() as int),
                views(out@) == views(self@).take(idx),
            decreases it@.len(),
        {
            match it.next() {
                Some(x) => {
                    assert(*x == self@[idx]);
                    let ghost before = out@;
                    let copy = x.clone();
                    assert(copy@ == self@[idx]@);
                    out.push(copy);
                    proof {
                        assert(views(out@) =~= views(before).push(copy@));
                        assert(views(out@) =~= views(self@).take(idx + 1));
                        assert(it@ =~= self@.subrange(idx + 1, self@.len() as int));
                        idx = idx + 1;
                    }
                },
                None => {
                    assert(views(self@).take(idx) =~= views(self@));
                    return out;
                },
            }
        }
    }

    /// Clones of the accounts with the given id, head first: the players
    /// a game is played for.
    pub fn players(&self, id: &str) -> (r: Vec<Account>)
        ensures
            views(r@) == selected(views(self@), id@),
    {
        let all = self.to_vec();
        let ghost vs = views(all@);
        let mut out: Vec<Account> = Vec::new();
        let mut i: usize = 0;
        assert(vs.skip(0) =~= vs);
        while i < all.len()
            invariant
                i <= all@.len(),
                vs == views(all@),
                vs == views(self@),
                selected(vs, id@) == views(out@) + selected(vs.skip(i as int), id@),
            decreases all@.len() - i,
        {
            let ghost rest = vs.skip(i as int);
            assert(rest[0] == all@[i as int]@);
            assert(rest.drop_first() =~= vs.skip(i + 1));
            if same_text(all[i].id.as_str(), id) {
                let ghost before = out@;
                out.push(all[i].clone());
                assert(views(out@) =~= views(before).push(all@[i as int]@));
                assert(views(before) + (seq![rest[0]] + selected(rest.drop_first(), id@))
                    =~= views(out@) + selected(vs.skip(i + 1), id@));
            }
            i = i + 1;
        }
        assert(vs.skip(i as int) =~= Seq::<AccountView>::empty());
        assert(views(out@) + Seq::<AccountView>::empty() =~= views(out@));
        out
    }

    /// The accounts after the games were played: each account with the
    /// given id replaced, in order, by the next of `played`, the others
    /// cloned as they are.
    pub fn updated_users(&self, id: &str, played: &Vec<Account>) -> (r: Vec<Account>)
        requires
            played@.len() == selected(views(self@), id@).len(),
        ensures
            views(r@) == with_played(views(self@), id@, views(played@)),
    {
        let all = self.to_vec();
        let ghost vs = views(all@);
        let ghost pv = views(played@);
        let mut out: Vec<Account> = Vec::new();
        let mut i: usize = 0;
        let mut j: usize = 0;
        let plen = played.len();
        assert(vs.skip(0) =~= vs);
        assert(pv.skip(0) =~= pv);
        while i < all.len()
            invariant
                plen == played@.len(),
                i <= all@.len(),
                j <= played@.len(),
                vs == views(all@),
                vs == views(self@),
                pv == views(played@),
                selected(vs.skip(i as int), id@).len() == played@.len() - j,
                with_played(vs, id@, pv) == views(out@) + with_played(
                    vs.skip(i as int),
                    id@,
                    pv.skip(j as int),
                ),
            decreases all@.len() - i,
        {
            let ghost rest = vs.skip(i as int);
            assert(rest[0] == all@[i as int]@);
            assert(rest.drop_first() =~= vs.skip(i + 1));
            let ghost before = out@;
            if same_text(all[i].id.as_str(), id) {
                assert(selected(rest, id@).len() == 1 + selected(rest.drop_first(), id@).len());
                assert(j < plen);
                assert(pv.skip(j as int)[0] == played@[j as int]@);
                assert(pv.skip(j as int).drop_first() =~= pv.skip(j + 1));
                out.push(played[j].clone());
                assert(views(out@) =~= views(before).push(played@[j as int]@));
                assert(views(before) + (seq![played@[j as int]@] + with_played(
                    vs.skip(i + 1),
                    id@,
                    pv.skip(j + 1),
                )) =~= views(out@) + with_played(vs.skip(i + 1), id@, pv.skip(j + 1)));
                j = j + 1;
            } else {
                out.push(all[i].clone());
                assert(views(out@) =~= views(before).push(all@[i as int]@));
                assert(views(before) + (seq![rest[0]] + with_played(
                    vs.skip(i + 1),
                    id@,
                    pv.skip(j as int),
                )) =~= views(out@) + with_played(vs.skip(i + 1), id@, pv.skip(j as int)));
            }
            i = i + 1;
        }
        assert(vs.skip(i as int) =~= Seq::<AccountView>::empty());
        assert(views(out@) + Seq::<AccountView>::empty() =~= views(out@));
        out
    }

    /// The save text of the list: one record line per account, head first.
    pub fn to_text(&self) -> (r: String)
        ensures
            r@ == records(views(self@)),
    {
        let v = self.to_vec();
        accounts_to_text(&v)
    }

    /// A list holding clones of `items` in reverse order: each is put in front
    /// of those before it.
    pub fn stacked(items: &Vec<Account>) -> (r: List<Account>)
        ensures
            views(r@) == views(items@).reverse(),
    {
        let mut list = List::new();
        let mut i: usize = 0;
        while i < items.len()
            invariant
                i <= items@.len(),
                views(list@) == views(items@).take(i as int).reverse(),
            decreases items@.len() - i,
        {
            let ghost before = list@;
            let copy = items[i].clone();
            list = list.prepend(copy);
            assert(views(list@) =~= seq![copy@] + views(before));
            assert(views(list@) =~= views(items@).take(i + 1).reverse());
            i = i + 1;
        }
        assert(views(items@).take(i as int) =~= views(items@));
        list
    }

    /// The accounts ordered by id, last id first: the ascending stable
    /// order, stacked so that the list comes out descending.
    pub fn sort_by_id(&self) -> (r: List<Account>)
        ensures
            views(r@) == sorted_by_id(views(self@)).reverse(),
    {
        let items = self.to_vec();
        let mut sorted: Vec<Account> = Vec::new();
        let mut i: usize = 0;
        while i < items.len()
            invariant
                i <= items@.len(),
                views(items@) == views(self@),
                views(sorted@) == sorted_by_id(views(items@).take(i as int)),
            decreases items@.len() - i,
        {
            let a = items[i].clone();
            assert(views(items@).take(i + 1).drop_last() =~= views(items@).take(i as int));
            insert_by_id_exec(&mut sorted, a);
            i = i + 1;
        }
        assert(views(items@).take(i as int) =~= views(items@));
        List::stacked(&sorted)
    }

    /// The same accounts in reverse order.
    pub fn reverse(&self) -> (r: List<Account>)
        ensures
            views(r@) == views(self@).reverse(),
    {
        let v = self.to_vec();
        List::stacked(&v)
    }

    /// The first account with the given id, if any.
    pub fn find_by_id(&self, id: &str) -> (r: Option<&Account>)
        ensures
            match r {
                Some(x) => exists|i: int|
                    0 <= i < self@.len() && *x == self@[i] && self@[i].id@ == id@ && forall|j: int|
                        0 <= j < i ==> (#[trigger] self@[j]).id@ != id@,
                None => forall|i: int| 0 <= i < self@.len() ==> (#[trigger] self@[i]).id@ != id@,
            },
    {
        let has_id = |account: &Account| -> (b: bool)
            ensures
                b == (account.id@ == id@),
            {
                let found = same_text(account.id.as_str(), id);
                found
            };
        self.find_by_predicate(has_id)
    }

    /// How the list is shown: `{ .. } -> { .. } -> None`.
    pub fn to_string(&self) -> (r: String)
        ensures
            r@ == shown_list(views(self@)),
    {
        let v = self.to_vec();
        let mut out = String::new();
        let mut i: usize = 0;
        assert(views(v@).skip(0) =~= views(v@));
        while i < v.len()
            invariant
                i <= v@.len(),
                views(v@) == views(self@),
                shown_list(views(v@)) == out@ + shown_list(views(v@).skip(i as int)),
            decreases v@.len() - i,
        {
            let ghost rest = views(v@).skip(i as int);
            assert(rest[0] == v@[i as int]@);
            assert(rest.drop_first() =~= views(v@).skip(i + 1));
            let piece = v[i].to_string();
            out.append(piece.as_str());
            out.append(" -> ");
            i = i + 1;
        }
        assert(views(v@).skip(i as int) =~= Seq::<AccountView>::empty());
        out.append("None");
        out
    }
}

} // verus!
