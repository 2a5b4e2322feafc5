use vstd::prelude::*;

verus! {

/// `std::path::PathBuf`, carried through unread.
#[verifier::external_type_specification]
#[verifier::external_body]
pub struct ExPathBuf(std::path::PathBuf);

/// An engine that reports the paths of its files. By default it has none.
pub trait StoragePathIntrospection {
    fn wal_path(&self) -> (r: Option<&std::path::PathBuf>)
        default_ensures
            r is None,
    {
        None
    }

    fn snapshot_path(&self) -> (r: Option<&std::path::PathBuf>)
        default_ensures
            r is None,
    {
        None
    }
}

} // verus!
