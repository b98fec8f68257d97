//! Data model of the club administration around the engine: clubs,
//! players, users, and authentication outcomes. These types carry plain
//! data and the validation rules stated of them; storage and transport
//! live with the host application.

use vstd::prelude::*;
use vstd::string::StrSliceExecFns;

verus! {

/// A player's gender.
#[derive(Clone, Copy, Debug)]
pub enum Gender {
    Male,
    Female,
}

/// A stored player.
pub struct Player {
    pub id: i64,
    pub first_name: String,
    pub last_name: String,
    pub email: String,
    pub gender: Gender,
    pub club_id: i64,
    pub skill_level: i8,
}

/// The projection of a player returned by roster queries.
pub struct GetPlayer {
    pub id: i64,
    pub first_name: String,
    pub last_name: String,
    pub club_id: i64,
    pub skill_level: i8,
    pub gender: Gender,
}

/// A request to create or update a player.
pub struct CreatePlayerRequest {
    pub first_name: String,
    pub last_name: String,
    pub email: String,
    pub gender: Gender,
    pub club_id: i64,
    pub skill_level: i32,
}

/// A club with its member count.
pub struct Club {
    pub id: i64,
    pub name: String,
    pub description: String,
    pub member_count: i32,
}

/// A request to create a club.
pub struct CreateClubRequest {
    pub name: String,
    pub description: String,
}

/// A stored user.
pub struct User {
    pub id: u32,
    pub username: String,
}

/// A request to create a user.
pub struct CreateUser {
    pub username: String,
    pub password: String,
}

impl User {
    /// Builds the user record from its parts.
    pub fn new(id: u32, username: String) -> (r: User)
        ensures
            r.id == id,
            r.username == username,
    {
        User { id, username }
    }
}

/// Why an authentication step failed.
pub enum AuthError {
    DatabaseError(String),
    InvalidCredentials,
    UserNotFound,
    UserAlreadyExists,
    HashingError,
    VerificationError,
}

impl AuthError {
    /// The human-readable description of the failure.
    pub fn message(&self) -> (r: String)
        ensures
            match self {
                AuthError::DatabaseError(msg) => r@ == "Database error: "@ + msg@,
                AuthError::InvalidCredentials => r@ == "Invalid credentials"@,
                AuthError::UserNotFound => r@ == "User not found"@,
                AuthError::UserAlreadyExists => r@ == "User already exists"@,
                AuthError::HashingError => r@ == "Failed to hash password"@,
                AuthError::VerificationError => r@ == "Verification error"@,
            },
    {
        match self {
            AuthError::DatabaseError(msg) => {
                let mut s = "Database error: ".to_owned();
                s.append(msg.as_str());
                s
            },
            AuthError::InvalidCredentials => "Invalid credentials".to_owned(),
            AuthError::UserNotFound => "User not found".to_owned(),
            AuthError::UserAlreadyExists => "User already exists".to_owned(),
            AuthError::HashingError => "Failed to hash password".to_owned(),
            AuthError::VerificationError => "Verification error".to_owned(),
        }
    }
}

impl Gender {
    /// The storage label of the gender, as the player store records it.
    pub fn label(&self) -> (r: String)
        ensures
            match self {
                Gender::Male => r@ == "Male"@,
                Gender::Female => r@ == "Female"@,
            },
    {
        match self {
            Gender::Male => "Male".to_owned(),
            Gender::Female => "Female".to_owned(),
        }
    }

    /// Reads a storage label back: the female label and, as a fallback
    /// for anything unrecognized, the male one.
    pub fn from_label(s: &String) -> (r: Gender)
        ensures
            r is Female <==> s@ == "Female"@,
            r is Male <==> s@ != "Female"@,
    {
        let female = "Female".to_owned();
        if *s == female {
            Gender::Female
        } else {
            Gender::Male
        }
    }
}

/// The whitespace characters (the Unicode White_Space property), as
/// trimming sees them.
pub open spec fn is_space(c: char) -> bool {
    ||| c == ' '
    ||| c == '\t'
    ||| c == '\n'
    ||| c == '\u{b}'
    ||| c == '\u{c}'
    ||| c == '\r'
    ||| c == '\u{85}'
    ||| c == '\u{a0}'
    ||| c == '\u{1680}'
    ||| (0x2000 <= c as u32 && c as u32 <= 0x200a)
    ||| c == '\u{2028}'
    ||| c == '\u{2029}'
    ||| c == '\u{202f}'
    ||| c == '\u{205f}'
    ||| c == '\u{3000}'
}

/// The string trims to nothing: every character is whitespace.
pub open spec fn is_blank(s: Seq<char>) -> bool {
    forall|i: int| 0 <= i < s.len() ==> is_space(#[trigger] s[i])
}

/// Whether one character is whitespace.
fn is_space_char(c: char) -> (r: bool)
    ensures
        r == is_space(c),
{
    c == ' ' || c == '\t' || c == '\n' || c == '\u{b}' || c == '\u{c}' || c == '\r'
        || c == '\u{85}' || c == '\u{a0}' || c == '\u{1680}' || (0x2000 <= c as u32 && c as u32
        <= 0x200a) || c == '\u{2028}' || c == '\u{2029}' || c == '\u{202f}' || c == '\u{205f}'
        || c == '\u{3000}'
}

/// Whether the string trims to nothing.
fn is_blank_str(s: &String) -> (r: bool)
    ensures
        r == is_blank(s@),
{
    let st = s.as_str();
    let n = st.unicode_len();
    let mut k: usize = 0;
    while k < n
        invariant
            k <= n,
            n == st@.len(),
            st@ == s@,
            forall|j: int| 0 <= j < k ==> is_space(#[trigger] st@[j]),
        decreases n - k,
    {
        let c = st.get_char(k);
        if !is_space_char(c) {
            return false;
        }
        k += 1;
    }
    true
}

impl CreatePlayerRequest {
    /// Checks the request: the skill level must lie within 1 to 50 and no
    /// name or email field may trim to nothing. Succeeds exactly when all
    /// four checks pass, and otherwise reports the first failing check.
    pub fn validate(&self) -> (r: Result<(), String>)
        ensures
            r is Ok <==> 1 <= self.skill_level <= 50 && !is_blank(self.first_name@) && !is_blank(
                self.last_name@,
            ) && !is_blank(self.email@),
            r matches Err(m) ==> if self.skill_level < 1 || self.skill_level > 50 {
                m@ == "Skill level must be between 1 and 50"@
            } else if is_blank(self.first_name@) {
                m@ == "First name cannot be empty"@
            } else if is_blank(self.last_name@) {
                m@ == "Last name cannot be empty"@
            } else {
                m@ == "Email cannot be empty"@
            },
    {
        if self.skill_level < 1 || self.skill_level > 50 {
            return Err("Skill level must be between 1 and 50".to_owned());
        }
        if is_blank_str(&self.first_name) {
            return Err("First name cannot be empty".to_owned());
        }
        if is_blank_str(&self.last_name) {
            return Err("Last name cannot be empty".to_owned());
        }
        if is_blank_str(&self.email) {
            return Err("Email cannot be empty".to_owned());
        }
        Ok(())
    }
}

/// The location of the application's data store, relative to the working
/// directory.
pub fn get_database_path() -> (r: String)
    ensures
        r@ == "../data/app_data.db"@,
{
    "../data/app_data.db".to_owned()
}

} // verus!
