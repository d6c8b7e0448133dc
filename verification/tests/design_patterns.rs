use rust_recipes::design_patterns::avoid_complex_type_bound::{GetterError, Status, ValueV1};
use rust_recipes::design_patterns::command::{AddField, CreateTable, Migration, Schema, Step};

#[test]
fn command_schema_runs_forward_and_rolls_back_in_reverse() {
    let mut schema = Schema::new();
    schema.add_migration(Step::CreateTable(CreateTable));
    schema.add_migration(Step::AddField(AddField));
    assert_eq!(vec!["create table", "add field"], schema.execute());
    assert_eq!(vec!["remove field", "drop table"], schema.rollback());
}

#[test]
fn command_single_migrations() {
    assert_eq!(CreateTable.execute(), "create table");
    assert_eq!(CreateTable.rollback(), "drop table");
    assert_eq!(AddField.execute(), "add field");
    assert_eq!(AddField.rollback(), "remove field");
}

#[test]
fn value_v1_update_value_status() {
    let mut v = ValueV1 { value: None, getter: || Ok::<u32, GetterError>(7), status: |_: &u32| Status {} };
    assert!(v.value().is_none());
    assert!(v.status().is_none());
    assert!(v.update().is_ok());
    assert_eq!(v.value(), Some(&7));
    assert!(v.status().is_some());

    let mut failing = ValueV1 { value: Some(1u8), getter: || Err::<u8, GetterError>(GetterError {}), status: |_: &u8| Status {} };
    assert!(failing.update().is_err());
    assert_eq!(failing.value(), Some(&1));
}

use rust_recipes::design_patterns::fold::{Expr, Folder, Name, Renamer, Stmt};

#[test]
fn fold_renamer_renames_and_replaces_expressions() {
    let stmt = Box::new(Stmt::Let(
        Box::new(Name { value: "x".to_string() }),
        Box::new(Expr::Add(Box::new(Expr::IntLit(1)), Box::new(Expr::IntLit(2)))),
    ));
    let mut r = Renamer;
    match *r.fold_stmt(stmt) {
        Stmt::Let(n, e) => {
            assert_eq!(n.value, "foo");
            assert!(matches!(*e, Expr::IntLit(0)));
        }
        Stmt::Expr(_) => panic!("a let statement stays a let statement"),
    }
    let expr_stmt = Box::new(Stmt::Expr(Box::new(Expr::Sub(Box::new(Expr::IntLit(5)), Box::new(Expr::IntLit(3))))));
    assert!(matches!(*r.fold_stmt(expr_stmt), Stmt::Expr(_)));
}
