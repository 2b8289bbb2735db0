//! Accounts and the registry that holds them: a list in the order of declaration, in
//! which an account is found by its acronym and referred to by its index.

use crate::text::is_upper;
use vstd::prelude::*;

verus! {

/// What an [`Account`] stands for: its acronym and its display name, as characters.
pub struct AccountView {
    pub acronym: Seq<char>,
    pub name: Seq<char>,
}

/// An acronym is two upper-case ASCII letters.
pub open spec fn is_acronym(s: Seq<char>) -> bool {
    s.len() == 2 && is_upper(s[0]) && is_upper(s[1])
}

/// An account of the household: a unique acronym and a display name.
#[derive(Debug)]
pub struct Account {
    acronym: String,
    name: String,
}

impl View for Account {
    type V = AccountView;

    closed spec fn view(&self) -> AccountView {
        AccountView { acronym: self.acronym@, name: self.name@ }
    }
}

impl Clone for Account {
    fn clone(&self) -> (r: Account)
        ensures
            r@ == self@,
    {
        proof {
            use_type_invariant(self);
        }
        Account { acronym: self.acronym.clone(), name: self.name.clone() }
    }
}

impl PartialEq for Account {
    fn eq(&self, other: &Account) -> (r: bool) {
        self.acronym == other.acronym
    }
}

impl vstd::std_specs::cmp::PartialEqSpecImpl for Account {
    open spec fn obeys_eq_spec() -> bool {
        true
    }

    /// Two accounts are equal when their acronyms are: the name does not count.
    open spec fn eq_spec(&self, other: &Account) -> bool {
        self@.acronym == other@.acronym
    }
}

/// How an account is written: the acronym, an arrow, the name.
pub open spec fn account_text(account: AccountView) -> Seq<char> {
    account.acronym + seq![' ', '-', '>', ' '] + account.name
}

impl Account {
    /// Every account has an acronym.
    #[verifier::type_invariant]
    pub open spec fn inv(self) -> bool {
        is_acronym(self@.acronym)
    }

    /// The account with the given acronym and name, if the acronym is one.
    pub fn new(acronym: String, name: String) -> (r: Option<Account>)
        ensures
            match r {
                Some(account) => is_acronym(acronym@) && account@ == (AccountView {
                    acronym: acronym@,
                    name: name@,
                }),
                None => !is_acronym(acronym@),
            },
    {
        if acronym.as_str().unicode_len() == 2 {
            let first = acronym.as_str().get_char(0);
            let second = acronym.as_str().get_char(1);
            if 'A' <= first && first <= 'Z' && 'A' <= second && second <= 'Z' {
                return Some(Account { acronym, name });
            }
        }
        None
    }

    /// The acronym: two upper-case letters.
    pub fn acronym(&self) -> (r: &String)
        ensures
            r@ == self@.acronym,
            is_acronym(r@),
    {
        proof {
            use_type_invariant(self);
        }
        &self.acronym
    }

    /// The display name.
    pub fn name(&self) -> (r: &String)
        ensures
            r@ == self@.name,
    {
        &self.name
    }

    /// The account as text, as [`account_text`] writes it.
    pub fn to_string(&self) -> (r: String)
        ensures
            r@ == account_text(self@),
    {
        let mut out = self.acronym.clone();
        out.append(" -> ");
        out.append(self.name.as_str());
        proof {
            reveal_strlit(" -> ");
            assert(" -> "@ =~= seq![' ', '-', '>', ' ']);
        }
        out
    }
}

/// What each account of a list stands for.
pub open spec fn views(accounts: Seq<Account>) -> Seq<AccountView> {
    accounts.map_values(|a: Account| a@)
}

/// Some account of the registry has this acronym.
pub open spec fn declared(accounts: Seq<AccountView>, acronym: Seq<char>) -> bool {
    exists|i: int| 0 <= i < accounts.len() && #[trigger] accounts[i].acronym == acronym
}

/// `i` is the index of the first account with this acronym.
pub open spec fn is_first_index(accounts: Seq<AccountView>, acronym: Seq<char>, i: int) -> bool {
    &&& 0 <= i < accounts.len()
    &&& accounts[i].acronym == acronym
    &&& forall|j: int| 0 <= j < i ==> (#[trigger] accounts[j]).acronym != acronym
}

/// The index under which the registry knows the acronym: that of the first account
/// that has it, if any has.
pub open spec fn position(accounts: Seq<AccountView>, acronym: Seq<char>) -> Option<int> {
    if exists|i: int| is_first_index(accounts, acronym, i) {
        Some(choose|i: int| is_first_index(accounts, acronym, i))
    } else {
        None
    }
}

/// No two accounts of the registry share an acronym.
pub open spec fn acronyms_distinct(accounts: Seq<AccountView>) -> bool {
    forall|i: int, j: int|
        0 <= i < j < accounts.len() ==> (#[trigger] accounts[i]).acronym != (
        #[trigger] accounts[j]).acronym
}

/// The first index of an acronym is its position, and where there is none the acronym
/// is not declared.
pub proof fn lemma_position(accounts: Seq<AccountView>, acronym: Seq<char>)
    ensures
        forall|i: int|
            is_first_index(accounts, acronym, i) ==> position(accounts, acronym) == Some(i),
        position(accounts, acronym) is None <==> !declared(accounts, acronym),
{
    assert forall|i: int| is_first_index(accounts, acronym, i) implies position(accounts, acronym)
        == Some(i) by {
        let c = choose|c: int| is_first_index(accounts, acronym, c);
        assert(is_first_index(accounts, acronym, c));
        if c < i {
            assert(accounts[c].acronym != acronym);
        } else if i < c {
            assert(accounts[i].acronym != acronym);
        }
    }
    if declared(accounts, acronym) {
        let k = choose|k: int| 0 <= k < accounts.len() && #[trigger] accounts[k].acronym == acronym;
        lemma_first_index_exists(accounts, acronym, k);
    }
}

proof fn lemma_first_index_exists(accounts: Seq<AccountView>, acronym: Seq<char>, k: int)
    requires
        0 <= k < accounts.len(),
        accounts[k].acronym == acronym,
    ensures
        exists|i: int| is_first_index(accounts, acronym, i),
    decreases k,
{
    if exists|j: int| 0 <= j < k && #[trigger] accounts[j].acronym == acronym {
        let j = choose|j: int| 0 <= j < k && #[trigger] accounts[j].acronym == acronym;
        lemma_first_index_exists(accounts, acronym, j);
    } else {
        assert(is_first_index(accounts, acronym, k));
    }
}

/// An acronym keeps its index when further accounts are declared after it.
pub proof fn lemma_position_stable(
    accounts: Seq<AccountView>,
    more: Seq<AccountView>,
    acronym: Seq<char>,
)
    requires
        declared(accounts, acronym),
    ensures
        position(accounts + more, acronym) == position(accounts, acronym),
{
    lemma_position(accounts, acronym);
    let i = position(accounts, acronym)->0;
    assert(is_first_index(accounts, acronym, i));
    let longer = accounts + more;
    assert forall|j: int| 0 <= j < i implies (#[trigger] longer[j]).acronym != acronym by {
        assert(longer[j] == accounts[j]);
    }
    assert(longer[i] == accounts[i]);
    assert(is_first_index(longer, acronym, i));
    lemma_position(longer, acronym);
}

/// Where no acronym is used twice, every account is found at its own index, and
/// nowhere else.
pub proof fn lemma_position_of_member(accounts: Seq<AccountView>, i: int)
    requires
        acronyms_distinct(accounts),
        0 <= i < accounts.len(),
    ensures
        position(accounts, accounts[i].acronym) == Some(i),
{
    assert(is_first_index(accounts, accounts[i].acronym, i));
    lemma_position(accounts, accounts[i].acronym);
}

/// The index of the account with this acronym, if the registry has one.
pub fn find(acronym: &String, accounts: &Vec<Account>) -> (r: Option<usize>)
    ensures
        match r {
            Some(i) => position(views(accounts@), acronym@) == Some(i as int) && i
                < accounts.len(),
            None => position(views(accounts@), acronym@) is None,
        },
{
    let ghost registry = views(accounts@);
    let mut i: usize = 0;
    while i < accounts.len()
        invariant
            i <= accounts.len(),
            registry == views(accounts@),
            forall|j: int| 0 <= j < i ==> (#[trigger] registry[j]).acronym != acronym@,
        decreases accounts.len() - i,
    {
        if *accounts[i].acronym() == *acronym {
            proof {
                assert(registry[i as int] == accounts@[i as int]@);
                assert(is_first_index(registry, acronym@, i as int));
                lemma_position(registry, acronym@);
            }
            return Some(i);
        }
        proof {
            assert(registry[i as int] == accounts@[i as int]@);
        }
        i += 1;
    }
    proof {
        lemma_position(registry, acronym@);
    }
    None
}

/// The index of the account with this acronym, which the registry must have.
pub fn find_index(acronym: &String, accounts: &Vec<Account>) -> (r: usize)
    requires
        declared(views(accounts@), acronym@),
    ensures
        r < accounts.len(),
        position(views(accounts@), acronym@) == Some(r as int),
        is_first_index(views(accounts@), acronym@, r as int),
{
    proof {
        lemma_position(views(accounts@), acronym@);
    }
    match find(acronym, accounts) {
        Some(i) => i,
        None => 0,
    }
}

} // verus!
