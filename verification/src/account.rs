use vstd::prelude::*;

use crate::entity::{Entity, ID};

verus! {

/// A tenant account: identity and the secret key its API calls carry.
#[derive(Debug)]
pub struct Account {
    pub id: String,
    pub secret_api_key: String,
}

impl Clone for Account {
    fn clone(&self) -> (r: Self)
        ensures
            r == *self,
    {
        Account { id: self.id.clone(), secret_api_key: self.secret_api_key.clone() }
    }
}

impl Account {
    /// A fresh account with a random identity and a random API key.
    pub fn new() -> (r: Account)
        ensures
            r.id@.len() == 36,
            r.secret_api_key@.len() == 36,
    {
        Account { id: ID::new().as_string(), secret_api_key: ID::new().as_string() }
    }
}

impl Entity<String> for Account {
    fn id(&self) -> String {
        self.id.clone()
    }

    fn eq(&self, other: &Self) -> bool {
        self.id == other.id
    }
}

/// First account with the given identity.
pub open spec fn spec_find_account(s: Seq<Account>, id: Seq<char>) -> Option<Account>
    decreases s.len(),
{
    if s.len() == 0 {
        Option::None
    } else if s[0].id@ == id {
        Option::Some(s[0])
    } else {
        spec_find_account(s.drop_first(), id)
    }
}

/// First account with the given API key.
pub open spec fn spec_find_by_key(s: Seq<Account>, key: Seq<char>) -> Option<Account>
    decreases s.len(),
{
    if s.len() == 0 {
        Option::None
    } else if s[0].secret_api_key@ == key {
        Option::Some(s[0])
    } else {
        spec_find_by_key(s.drop_first(), key)
    }
}

/// Keeps accounts of every identity but the named one.
pub open spec fn spec_other_account_pred(id: Seq<char>) -> spec_fn(Account) -> bool {
    |a: Account| a.id@ != id
}

proof fn lemma_find_account_no_match(s: Seq<Account>, id: Seq<char>)
    requires
        forall|i: int| 0 <= i < s.len() ==> (#[trigger] s[i]).id@ != id,
    ensures
        spec_find_account(s, id) is None,
    decreases s.len(),
{
    if s.len() == 0 {
    } else {
        assert(forall|i: int|
            0 <= i < s.drop_first().len() ==> s.drop_first()[i] == s[i + 1]);
        lemma_find_account_no_match(s.drop_first(), id);
    }
}

proof fn lemma_find_account_update_first(s: Seq<Account>, k: int, a: Account)
    requires
        0 <= k < s.len(),
        forall|j: int| 0 <= j < k ==> (#[trigger] s[j]).id@ != a.id@,
        s[k].id@ == a.id@,
    ensures
        spec_find_account(s.update(k, a), a.id@) == Option::Some(a),
    decreases s.len(),
{
    if k == 0 {
        assert(s.update(0, a)[0] == a);
    } else {
        assert(s.update(k, a).drop_first() =~= s.drop_first().update(k - 1, a));
        assert(forall|j: int|
            0 <= j < k - 1 ==> s.drop_first()[j] == s[j + 1]);
        lemma_find_account_update_first(s.drop_first(), k - 1, a);
        assert(s.update(k, a)[0] == s[0]);
        assert(spec_find_account(s.update(k, a), a.id@) == spec_find_account(
            s.drop_first().update(k - 1, a),
            a.id@,
        ));
    }
}

proof fn lemma_find_account_push(s: Seq<Account>, a: Account)
    requires
        forall|i: int| 0 <= i < s.len() ==> (#[trigger] s[i]).id@ != a.id@,
    ensures
        spec_find_account(s.push(a), a.id@) == Option::Some(a),
    decreases s.len(),
{
    if s.len() == 0 {
        assert(s.push(a)[0] == a);
    } else {
        assert(s.push(a).drop_first() =~= s.drop_first().push(a));
        assert(forall|i: int|
            0 <= i < s.drop_first().len() ==> s.drop_first()[i] == s[i + 1]);
        lemma_find_account_push(s.drop_first(), a);
        assert(s.push(a)[0] == s[0]);
        assert(spec_find_account(s.push(a), a.id@) == spec_find_account(
            s.drop_first().push(a),
            a.id@,
        ));
    }
}

/// If some entry carries the identity, first-match lookup finds one.
proof fn lemma_find_account_some_when_match(s: Seq<Account>, i: int, id: Seq<char>)
    requires
        0 <= i < s.len(),
        s[i].id@ == id,
    ensures
        spec_find_account(s, id) is Some,
    decreases s.len(),
{
    if s[0].id@ == id {
    } else {
        assert(s.drop_first()[i - 1] == s[i]);
        lemma_find_account_some_when_match(s.drop_first(), i - 1, id);
    }
}

/// An account repository held in memory: an ordered list of accounts.
pub struct InMemoryAccountRepo {
    accounts: Vec<Account>,
}

impl InMemoryAccountRepo {
    pub closed spec fn accounts(&self) -> Seq<Account> {
        self.accounts@
    }

    pub fn new() -> (r: InMemoryAccountRepo)
        ensures
            r.accounts().len() == 0,
    {
        InMemoryAccountRepo { accounts: Vec::new() }
    }

    /// Index of the first account with the identity.
    fn find_idx(&self, account_id: &String) -> (r: Option<usize>)
        ensures
            match r {
                Option::Some(k) => {
                    &&& 0 <= k < self.accounts().len()
                    &&& self.accounts()[k as int].id@ == account_id@
                    &&& forall|j: int|
                        0 <= j < k ==> (#[trigger] self.accounts()[j]).id@ != account_id@
                    &&& spec_find_account(self.accounts(), account_id@) == Option::Some(
                        self.accounts()[k as int],
                    )
                },
                Option::None => spec_find_account(self.accounts(), account_id@) is None,
            },
    {
        proof {
            assert(self.accounts@.skip(0) =~= self.accounts@);
        }
        let mut i: usize = 0;
        while i < self.accounts.len()
            invariant
                0 <= i <= self.accounts@.len(),
                forall|j: int| 0 <= j < i ==> (#[trigger] self.accounts@[j]).id@ != account_id@,
                spec_find_account(self.accounts@.skip(i as int), account_id@)
                    == spec_find_account(self.accounts@, account_id@),
            decreases self.accounts@.len() - i,
        {
            proof {
                assert(self.accounts@.skip(i as int)[0] == self.accounts@[i as int]);
                assert(self.accounts@.skip(i as int).drop_first() =~= self.accounts@.skip(
                    i as int + 1,
                ));
            }
            if self.accounts[i].id == *account_id {
                return Option::Some(i);
            }
            i = i + 1;
        }
        proof {
            assert(self.accounts@.skip(self.accounts@.len() as int) =~= Seq::<Account>::empty());
        }
        Option::None
    }

    /// Appends a new account.
    pub fn insert(&mut self, account: Account) -> (r: Result<(), ()>)
        ensures
            r is Ok,
            final(self).accounts() == old(self).accounts().push(account),
    {
        self.accounts.push(account);
        Result::Ok(())
    }

    /// Persists the account under its identity: replaces the stored account
    /// with the same identity, or appends it if none is stored yet.
    pub fn save(&mut self, account: Account) -> (r: Result<(), ()>)
        ensures
            r is Ok,
            spec_find_account(final(self).accounts(), account.id@) == Option::Some(account),
            final(self).accounts().len() <= old(self).accounts().len() + 1,
    {
        match self.find_idx(&account.id) {
            Option::Some(k) => {
                proof {
                    lemma_find_account_update_first(self.accounts@, k as int, account);
                }
                self.accounts.set(k, account);
            },
            Option::None => {
                proof {
                    assert forall|i: int|
                        0 <= i < self.accounts@.len() implies (#[trigger] self.accounts@[i]).id@
                        != account.id@ by {
                        if self.accounts@[i].id@ == account.id@ {
                            lemma_find_account_some_when_match(self.accounts@, i, account.id@);
                        }
                    }
                    lemma_find_account_push(self.accounts@, account);
                }
                self.accounts.push(account);
            },
        }
        Result::Ok(())
    }

    /// The stored account with the identity, if any.
    pub fn find(&self, account_id: &String) -> (r: Option<Account>)
        ensures
            r == spec_find_account(self.accounts(), account_id@),
    {
        match self.find_idx(account_id) {
            Option::Some(k) => {
                let found: Account = self.accounts[k].clone();
                Option::Some(found)
            },
            Option::None => Option::None,
        }
    }

    /// Deletes every account with the identity, returning the first one that
    /// was stored, if any.
    pub fn delete(&mut self, account_id: &String) -> (r: Option<Account>)
        ensures
            r == spec_find_account(old(self).accounts(), account_id@),
            final(self).accounts() == old(self).accounts().filter(
                spec_other_account_pred(account_id@),
            ),
    {
        let deleted: Option<Account> = self.find(account_id);
        let mut kept: Vec<Account> = Vec::new();
        let ghost orig = self.accounts@;
        let ghost mut done: int = 0;
        proof {
            assert(orig.take(0) =~= Seq::<Account>::empty());
            assert(orig.take(0).filter(spec_other_account_pred(account_id@)) =~= Seq::<
                Account,
            >::empty());
            assert(orig.take(0) + self.accounts@ =~= orig);
        }
        while self.accounts.len() > 0
            invariant
                0 <= done <= orig.len(),
                orig.take(done) + self.accounts@ == orig,
                self.accounts@.len() == orig.len() - done,
                kept@ == orig.take(done).filter(spec_other_account_pred(account_id@)),
            decreases self.accounts@.len(),
        {
            let row: Account = self.accounts.remove(0);
            proof {
                assert(orig[done] == row);
                assert(orig.take(done + 1) =~= orig.take(done).push(orig[done]));
                assert(orig.take(done + 1) + self.accounts@ =~= orig);
                orig.take(done).lemma_filter_push(
                    orig[done],
                    spec_other_account_pred(account_id@),
                );
            }
            if !(row.id == *account_id) {
                kept.push(row);
            }
            proof {
                done = done + 1;
            }
        }
        proof {
            assert(orig.take(done) =~= orig);
        }
        self.accounts = kept;
        deleted
    }

    /// The first stored account carrying the API key, if any.
    pub fn find_by_apikey(&self, api_key: &String) -> (r: Option<Account>)
        ensures
            r == spec_find_by_key(self.accounts(), api_key@),
    {
        proof {
            assert(self.accounts@.skip(0) =~= self.accounts@);
        }
        let mut i: usize = 0;
        while i < self.accounts.len()
            invariant
                0 <= i <= self.accounts@.len(),
                spec_find_by_key(self.accounts@.skip(i as int), api_key@) == spec_find_by_key(
                    self.accounts@,
                    api_key@,
                ),
            decreases self.accounts@.len() - i,
        {
            proof {
                assert(self.accounts@.skip(i as int)[0] == self.accounts@[i as int]);
                assert(self.accounts@.skip(i as int).drop_first() =~= self.accounts@.skip(
                    i as int + 1,
                ));
            }
            if self.accounts[i].secret_api_key == *api_key {
                let found: Account = self.accounts[i].clone();
                return Option::Some(found);
            }
            i = i + 1;
        }
        proof {
            assert(self.accounts@.skip(self.accounts@.len() as int) =~= Seq::<Account>::empty());
        }
        Option::None
    }
}

/// The account creation request; it carries no inputs.
pub struct CreateAccountUseCase {}

/// What account creation hands back: the new identity and its API key.
#[derive(Debug)]
pub struct UseCaseResponse {
    pub account_id: String,
    pub secret_api_key: String,
}

/// Why account creation failed. The in-memory repository accepts every
/// insert, so creation against it always succeeds.
#[derive(Debug)]
pub enum UsecaseErrors {
    StorageError,
}

impl CreateAccountUseCase {
    /// Creates a fresh account, stores it, and hands back its identity and
    /// secret key.
    pub fn perform(&self, repo: &mut InMemoryAccountRepo) -> (r: Result<
        UseCaseResponse,
        UsecaseErrors,
    >)
        ensures
            match r {
                Result::Ok(res) => {
                    &&& final(repo).accounts().len() == old(repo).accounts().len() + 1
                    &&& final(repo).accounts().last().id == res.account_id
                    &&& final(repo).accounts().last().secret_api_key == res.secret_api_key
                    &&& forall|i: int|
                        0 <= i < old(repo).accounts().len() ==> final(repo).accounts()[i] == old(
                            repo,
                        ).accounts()[i]
                },
                Result::Err(_) => false,
            },
    {
        let account: Account = Account::new();
        let response = UseCaseResponse {
            account_id: account.id.clone(),
            secret_api_key: account.secret_api_key.clone(),
        };
        match repo.insert(account) {
            Result::Ok(_) => Result::Ok(response),
            Result::Err(_) => {
                proof {
                    assert(false);
                }
                Result::Err(UsecaseErrors::StorageError)
            },
        }
    }
}

} // verus!
