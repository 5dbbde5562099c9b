use vstd::prelude::*;

verus! {

/// A user of the scheduler.
#[derive(Debug)]
pub struct User {
    pub id: String,
}

/// The wire shape of a user.
#[derive(Debug)]
pub struct UserDTO {
    pub id: String,
}

impl UserDTO {
    pub fn new(user: User) -> (r: Self)
        ensures
            r.id == user.id,
    {
        UserDTO { id: user.id }
    }
}

/// The answer of the user routes.
#[derive(Debug)]
pub struct UserResponse {
    pub user: UserDTO,
}

impl UserResponse {
    pub fn new(user: User) -> (r: Self)
        ensures
            r.user.id == user.id,
    {
        UserResponse { user: UserDTO::new(user) }
    }
}

} // verus!
