use badminton_tool::models::{
    AuthError, CreatePlayerRequest, Gender, User, get_database_path,
};

fn request(first: &str, last: &str, email: &str, skill: i32) -> CreatePlayerRequest {
    CreatePlayerRequest {
        first_name: first.to_string(),
        last_name: last.to_string(),
        email: email.to_string(),
        gender: Gender::Female,
        club_id: 1,
        skill_level: skill,
    }
}

#[test]
fn test_validate_accepts_well_formed_request() {
    assert_eq!(request("Ada", "Lovelace", "ada@example.com", 25).validate(), Ok(()));
    assert_eq!(request("Ada", "Lovelace", "ada@example.com", 1).validate(), Ok(()));
    assert_eq!(request("Ada", "Lovelace", "ada@example.com", 50).validate(), Ok(()));
}

#[test]
fn test_validate_rejects_out_of_range_skill() {
    assert_eq!(
        request("Ada", "Lovelace", "ada@example.com", 0).validate(),
        Err("Skill level must be between 1 and 50".to_string())
    );
    assert_eq!(
        request("Ada", "Lovelace", "ada@example.com", 51).validate(),
        Err("Skill level must be between 1 and 50".to_string())
    );
}

#[test]
fn test_validate_rejects_blank_names_and_email() {
    assert_eq!(
        request("   ", "Lovelace", "ada@example.com", 25).validate(),
        Err("First name cannot be empty".to_string())
    );
    assert_eq!(
        request("Ada", "", "ada@example.com", 25).validate(),
        Err("Last name cannot be empty".to_string())
    );
    assert_eq!(
        request("Ada", "Lovelace", "\t\n", 25).validate(),
        Err("Email cannot be empty".to_string())
    );
    // a non-ascii space still counts as blank
    assert_eq!(
        request("\u{3000}", "Lovelace", "ada@example.com", 25).validate(),
        Err("First name cannot be empty".to_string())
    );
}

#[test]
fn test_user_new_sets_fields() {
    let u = User::new(7, "casey".to_string());
    assert_eq!(u.id, 7);
    assert_eq!(u.username, "casey");
}

#[test]
fn test_database_path() {
    assert_eq!(get_database_path(), "../data/app_data.db");
}

#[test]
fn test_auth_error_messages() {
    assert_eq!(
        AuthError::DatabaseError("no table".to_string()).message(),
        "Database error: no table"
    );
    assert_eq!(AuthError::InvalidCredentials.message(), "Invalid credentials");
    assert_eq!(AuthError::UserNotFound.message(), "User not found");
    assert_eq!(AuthError::UserAlreadyExists.message(), "User already exists");
    assert_eq!(AuthError::HashingError.message(), "Failed to hash password");
    assert_eq!(AuthError::VerificationError.message(), "Verification error");
}

#[test]
fn test_gender_labels_round_trip() {
    assert_eq!(Gender::Male.label(), "Male");
    assert_eq!(Gender::Female.label(), "Female");
    assert!(matches!(Gender::from_label(&"Female".to_string()), Gender::Female));
    assert!(matches!(Gender::from_label(&"Male".to_string()), Gender::Male));
    assert!(matches!(Gender::from_label(&"unknown".to_string()), Gender::Male));
}
