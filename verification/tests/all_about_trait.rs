use rust_recipes::basic::all_about_trait::{comp_sci_student_greeting, CSStudent};

#[test]
fn student_greeting() {
    let student = CSStudent {
        name: String::from("Alice"),
        university: String::from("MIT"),
        fav_language: String::from("Rust"),
        git_username: String::from("alice_codes"),
    };
    assert_eq!(
        comp_sci_student_greeting(&student),
        "My name is Alice and I attend MIT. My favorite language is Rust. My Git username is alice_codes"
    );
}
