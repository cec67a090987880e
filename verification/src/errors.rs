use vstd::prelude::*;

use crate::strings::join_with;

verus! {

/// Everything a library operation can refuse, by kind.
#[derive(PartialEq, Eq, Debug)]
pub enum JsonError {
    /// An intermediate path segment is absent during read-only traversal.
    PathNotFound { segment: String },
    /// Traversal must continue below a value that is not an object.
    ExpectedObject { segment: String },
    /// The landing position of an operation is not an object.
    ExpectedObjectAtTarget,
    /// Insert found its target key already taken.
    KeyAlreadyExists { key: String },
    /// Replace found its target key absent.
    KeyDoesNotExist { key: String },
    /// Rename could not resolve its source path.
    SourceKeyNotFound { path: String },
    /// Leaf-path enumeration hit a value that is neither object nor string.
    UnexpectedValueType { path: String },
    /// Bulk validation: stems of listed files that the update mapping lacks.
    MissingUpdateKeys { keys: Vec<String> },
    /// Bulk validation: update-mapping keys no listed file accounts for.
    ExtraUpdateKeys { keys: Vec<String> },
    /// A file stem was asked of an empty path string.
    EmptyPathString,
    /// A file stem was asked of a path that has none.
    NoFileStem,
}

/// The model of an error: the same kinds over sequences.
#[verifier::ext_equal]
pub enum ErrorModel {
    PathNotFound(Seq<char>),
    ExpectedObject(Seq<char>),
    ExpectedObjectAtTarget,
    KeyAlreadyExists(Seq<char>),
    KeyDoesNotExist(Seq<char>),
    SourceKeyNotFound(Seq<char>),
    UnexpectedValueType(Seq<char>),
    MissingUpdateKeys(Seq<Seq<char>>),
    ExtraUpdateKeys(Seq<Seq<char>>),
    EmptyPathString,
    NoFileStem,
}

impl View for JsonError {
    type V = ErrorModel;

    open spec fn view(&self) -> ErrorModel {
        match self {
            JsonError::PathNotFound { segment } => ErrorModel::PathNotFound(segment@),
            JsonError::ExpectedObject { segment } => ErrorModel::ExpectedObject(segment@),
            JsonError::ExpectedObjectAtTarget => ErrorModel::ExpectedObjectAtTarget,
            JsonError::KeyAlreadyExists { key } => ErrorModel::KeyAlreadyExists(key@),
            JsonError::KeyDoesNotExist { key } => ErrorModel::KeyDoesNotExist(key@),
            JsonError::SourceKeyNotFound { path } => ErrorModel::SourceKeyNotFound(path@),
            JsonError::UnexpectedValueType { path } => ErrorModel::UnexpectedValueType(path@),
            JsonError::MissingUpdateKeys { keys } => ErrorModel::MissingUpdateKeys(keys.deep_view()),
            JsonError::ExtraUpdateKeys { keys } => ErrorModel::ExtraUpdateKeys(keys.deep_view()),
            JsonError::EmptyPathString => ErrorModel::EmptyPathString,
            JsonError::NoFileStem => ErrorModel::NoFileStem,
        }
    }
}

/// The report text of each error kind.
pub open spec fn error_message(e: ErrorModel) -> Seq<char> {
    match e {
        ErrorModel::PathNotFound(segment) => "Path segment '"@ + segment
            + "' does not exist in the JSON structure!"@,
        ErrorModel::ExpectedObject(segment) => "Expected object at path segment '"@ + segment
            + "', but found something else!"@,
        ErrorModel::ExpectedObjectAtTarget =>
            "Expected an object at final path to insert into, but found non-object."@,
        ErrorModel::KeyAlreadyExists(key) => "Key '"@ + key
            + "' already exists at the target path! Use REPLACE command instead."@,
        ErrorModel::KeyDoesNotExist(key) => "Key '"@ + key
            + "' does not exist at the target path! Use ADD command instead."@,
        ErrorModel::SourceKeyNotFound(path) => "Key '"@ + path + "' not found during rename!"@,
        ErrorModel::UnexpectedValueType(path) => "Unexpected value type at '"@ + path + "'!"@,
        ErrorModel::MissingUpdateKeys(keys) => "Updates file misses '"@ + join_with(keys, "', '"@)
            + (if keys.len() == 1 {
                "' key!"@
            } else {
                "' keys!"@
            }),
        ErrorModel::ExtraUpdateKeys(keys) => "Updates file has additional '"@ + join_with(
            keys,
            "', '"@,
        ) + "' key!"@,
        ErrorModel::EmptyPathString => "Can't get file stem! Empty string!"@,
        ErrorModel::NoFileStem => "Can't get file stem!"@,
    }
}

impl JsonError {
    /// Render the error as the report line the tool prints.
    pub fn message(&self) -> (r: String)
        ensures
            r@ == error_message(self@),
    {
        match self {
            JsonError::PathNotFound { segment } => {
                let mut m = ("Path segment '").to_owned();
                m.append(segment.as_str());
                m.append("' does not exist in the JSON structure!");
                m
            },
            JsonError::ExpectedObject { segment } => {
                let mut m = ("Expected object at path segment '").to_owned();
                m.append(segment.as_str());
                m.append("', but found something else!");
                m
            },
            JsonError::ExpectedObjectAtTarget => (
            "Expected an object at final path to insert into, but found non-object.").to_owned(),
            JsonError::KeyAlreadyExists { key } => {
                let mut m = ("Key '").to_owned();
                m.append(key.as_str());
                m.append("' already exists at the target path! Use REPLACE command instead.");
                m
            },
            JsonError::KeyDoesNotExist { key } => {
                let mut m = ("Key '").to_owned();
                m.append(key.as_str());
                m.append("' does not exist at the target path! Use ADD command instead.");
                m
            },
            JsonError::SourceKeyNotFound { path } => {
                let mut m = ("Key '").to_owned();
                m.append(path.as_str());
                m.append("' not found during rename!");
                m
            },
            JsonError::UnexpectedValueType { path } => {
                let mut m = ("Unexpected value type at '").to_owned();
                m.append(path.as_str());
                m.append("'!");
                m
            },
            JsonError::MissingUpdateKeys { keys } => {
                let mut m = ("Updates file misses '").to_owned();
                let joined = crate::strings::join_strings(keys, "', '");
                m.append(joined.as_str());
                if keys.len() == 1 {
                    m.append("' key!");
                } else {
                    m.append("' keys!");
                }
                m
            },
            JsonError::ExtraUpdateKeys { keys } => {
                let mut m = ("Updates file has additional '").to_owned();
                let joined = crate::strings::join_strings(keys, "', '");
                m.append(joined.as_str());
                m.append("' key!");
                m
            },
            JsonError::EmptyPathString => ("Can't get file stem! Empty string!").to_owned(),
            JsonError::NoFileStem => ("Can't get file stem!").to_owned(),
        }
    }
}

} // verus!
