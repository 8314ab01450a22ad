use fuse_mutation::cluster::{ClusterExecutor, ListAction, SessionManager};
use fuse_mutation::datum::Datum;
use fuse_mutation::errors::MutationError;
use fuse_mutation::export::ExportStream;
use fuse_mutation::read_settings::ReadSettings;
use fuse_mutation::rules::{get_explore_rule_set, RuleID, RuleSet, RuleSetError};
use fuse_mutation::variable::{
    DataBlock, DataColumnarValue, DataField, DataSchema, DataType, Function, SchemaError,
    VariableFunction,
};

// Pass if don't panic
#[test]
fn test_get_explore_rule_set() {
    get_explore_rule_set();
}

#[test]
fn explore_rule_set_holds_the_three_join_rules() {
    let rs = get_explore_rule_set();
    assert_eq!(rs.len(), 3);
    assert!(rs.contains(RuleID::CommuteJoin));
    assert!(rs.contains(RuleID::LeftAssociateJoin));
    assert!(rs.contains(RuleID::RightAssociateJoin));
}

#[test]
fn rule_set_rejects_duplicates() {
    let r = RuleSet::create_with_ids(vec![RuleID::CommuteJoin, RuleID::CommuteJoin]);
    assert!(matches!(r, Err(RuleSetError::DuplicateRule)));
}

#[test]
fn read_settings_defaults() {
    let s = ReadSettings::default();
    assert_eq!(s.storage_io_min_bytes_for_seek, 1024);
    assert_eq!(s.storage_io_max_page_bytes_for_read, 1024 * 1024);
}

fn sample_schema() -> DataSchema {
    DataSchema {
        fields: vec![
            DataField { name: "id".to_string(), data_type: DataType::Int64, nullable: false },
            DataField { name: "name".to_string(), data_type: DataType::Utf8, nullable: true },
        ],
    }
}

#[test]
fn variable_function_reads_declared_type_and_nullability() {
    let schema = sample_schema();
    let f = match VariableFunction::create("name").unwrap() {
        Function::Variable(v) => v,
    };
    assert_eq!(f.name(), "VariableFunction");
    assert_eq!(f.return_type(&schema).unwrap(), DataType::Utf8);
    assert!(f.nullable(&schema).unwrap());
    let g = match VariableFunction::create("id").unwrap() {
        Function::Variable(v) => v,
    };
    assert_eq!(g.return_type(&schema).unwrap(), DataType::Int64);
    assert!(!g.nullable(&schema).unwrap());
}

#[test]
fn variable_function_unknown_field_is_reported() {
    let schema = sample_schema();
    let f = match VariableFunction::create("age").unwrap() {
        Function::Variable(v) => v,
    };
    assert_eq!(f.return_type(&schema), Err(SchemaError::FieldNotFound));
    assert_eq!(f.nullable(&schema), Err(SchemaError::FieldNotFound));
}

#[test]
fn variable_function_evaluates_to_its_column() {
    let block = DataBlock {
        schema: sample_schema(),
        columns: vec![
            vec![Datum::Int(1), Datum::Int(2)],
            vec![Datum::Int(10), Datum::Null],
        ],
    };
    let f = match VariableFunction::create("name").unwrap() {
        Function::Variable(v) => v,
    };
    let DataColumnarValue::Array(col) = f.evaluate(&block).unwrap();
    assert_eq!(col, vec![Datum::Int(10), Datum::Null]);
}

#[test]
fn list_action_lists_the_executors() {
    let sessions = SessionManager {
        executors: vec![
            ClusterExecutor { name: "n1".to_string(), address: "127.0.0.1:9001".to_string() },
            ClusterExecutor { name: "n2".to_string(), address: "127.0.0.1:9002".to_string() },
        ],
    };
    let action = ListAction::create(sessions);
    let nodes = action.try_get_nodes().unwrap();
    assert_eq!(nodes.len(), 2);
    assert_eq!(nodes[0].name, "n1");
    assert_eq!(nodes[1].address, "127.0.0.1:9002");
}

#[test]
fn export_stream_chunks_sixteen_at_a_time() {
    let mut s = ExportStream { data: (0..20).map(|i| format!("entry-{}", i)).collect() };
    let c1 = s.next_chunk().unwrap();
    assert_eq!(c1.len(), 16);
    assert_eq!(c1[0], "entry-0");
    assert_eq!(c1[15], "entry-15");
    let c2 = s.next_chunk().unwrap();
    assert_eq!(c2, vec!["entry-16", "entry-17", "entry-18", "entry-19"]);
    assert!(s.next_chunk().is_none());
}

#[test]
fn export_stream_empty_yields_nothing() {
    let mut s = ExportStream { data: Vec::new() };
    assert!(s.next_chunk().is_none());
}

#[test]
fn error_descriptions_name_each_failure() {
    assert_eq!(MutationError::Io.describe(), "storage i/o failure");
    assert_eq!(
        MutationError::MultipleMatch.describe(),
        "multiple rows matched under the on-conflict key"
    );
    assert_eq!(MutationError::ConflictingOperation.describe(), "conflicting block operations");
    assert_eq!(MutationError::MaxRetriesExceeded.describe(), "commit retry budget exceeded");
    assert_eq!(
        MutationError::Aborted.describe(),
        "aborted: concurrent commit touched an overlapping block set"
    );
}
