use vstd::prelude::*;

verus! {

/// A record of the log.
#[derive(Debug)]
pub enum Cmd {
    /// `key` now maps to `value`.
    Put { key: String, value: String },
    /// `key` is no longer present.
    Rm { key: String },
}

/// What a record says, over the views of its strings.
pub enum RecordView {
    Put { key: Seq<char>, value: Seq<char> },
    Rm { key: Seq<char> },
}

impl View for Cmd {
    type V = RecordView;

    open spec fn view(&self) -> RecordView {
        match self {
            Cmd::Put { key, value } => RecordView::Put { key: key@, value: value@ },
            Cmd::Rm { key } => RecordView::Rm { key: key@ },
        }
    }
}

/// The store after one more record: a `Put` maps its key to its value, a `Rm`
/// deletes its key.
pub open spec fn apply_record(m: Map<Seq<char>, Seq<char>>, r: RecordView) -> Map<Seq<char>, Seq<char>> {
    match r {
        RecordView::Put { key, value } => m.insert(key, value),
        RecordView::Rm { key } => m.remove(key),
    }
}

/// The store that a sequence of records describes: each record applied in
/// turn to the empty store.
pub open spec fn replay_log(rs: Seq<RecordView>) -> Map<Seq<char>, Seq<char>>
    decreases rs.len(),
{
    if rs.len() == 0 {
        Map::empty()
    } else {
        apply_record(replay_log(rs.drop_last()), rs.last())
    }
}

/// The value that a record read back for a live key yields.  An index entry
/// only ever points at a `Put`; anything else means the log is corrupt.
pub fn value_of_record(cmd: Cmd) -> (r: Result<String, KvsError>)
    ensures
        match cmd@ {
            RecordView::Put { value, .. } => r matches Ok(v) && v@ == value,
            RecordView::Rm { .. } => r matches Err(KvsError::Corruption(_)),
        },
{
    match cmd {
        Cmd::Put { value, .. } => Ok(value),
        Cmd::Rm { .. } => Err(KvsError::Corruption(String::from_str("index points at a remove record"))),
    }
}

/// A request of the wire protocol.
#[derive(Debug)]
pub enum Request {
    Put { key: String, value: String },
    Get { key: String },
    Remove { key: String },
}

/// A response of the wire protocol.
#[derive(Debug)]
pub enum Response {
    /// The operation succeeded, with the value that it produced, if any.
    Success(Option<String>),
    /// The operation failed, with the text of its error.
    Failure(String),
}

/// The failures that the store distinguishes.
#[derive(Debug)]
pub enum KvsError {
    /// `remove` of a key that is not live.
    KeyNotFound,
    /// A file or socket operation failed.
    Io(String),
    /// A record could not be decoded, or an index entry led to a record that
    /// does not set its key.
    Corruption(String),
    /// The configuration was rejected before the store was opened.
    InvalidConfig(String),
}

/// The text that a client sees for a missing key.
pub open spec fn key_not_found_text() -> Seq<char> {
    "Key not found"@
}

impl KvsError {
    /// The text of the error as it is reported to a client.
    pub open spec fn spec_message(&self) -> Seq<char> {
        match self {
            KvsError::KeyNotFound => key_not_found_text(),
            KvsError::Io(m) => m@,
            KvsError::Corruption(m) => m@,
            KvsError::InvalidConfig(m) => m@,
        }
    }

    pub fn message(&self) -> (r: String)
        ensures
            r@ == self.spec_message(),
    {
        match self {
            KvsError::KeyNotFound => {
                proof {
                    reveal_strlit("Key not found");
                }
                String::from_str("Key not found")
            },
            KvsError::Io(m) => m.clone(),
            KvsError::Corruption(m) => m.clone(),
            KvsError::InvalidConfig(m) => m.clone(),
        }
    }
}

/// A storage engine as the server sees it.
pub trait KvsEngine: Clone + Send + 'static {
    fn set(&self, key: String, value: String) -> Result<(), KvsError>;

    fn get(&self, key: String) -> Result<Option<String>, KvsError>;

    fn remove(&self, key: String) -> Result<(), KvsError>;
}

/// The response that reports the outcome of an engine operation: the value
/// that it produced, or the text of its error.
pub fn into_response(outcome: Result<Option<String>, KvsError>) -> (r: Response)
    ensures
        match outcome {
            Ok(v) => r == Response::Success(v),
            Err(e) => r matches Response::Failure(m) && m@ == e.spec_message(),
        },
{
    match outcome {
        Ok(v) => Response::Success(v),
        Err(e) => Response::Failure(e.message()),
    }
}

} // verus!
