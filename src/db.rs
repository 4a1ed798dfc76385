use vstd::prelude::*;

verus! {

/// The live database session: the client of the last successful connection,
/// and the name of the database it targets.
pub struct DbState<C> {
    pub client: Option<C>,
    pub db_name: Option<String>,
}

impl<C> Default for DbState<C> {
    fn default() -> (r: Self)
        ensures
            r.client is None,
            r.db_name is None,
    {
        DbState { client: None, db_name: None }
    }
}

impl<C> DbState<C> {
    /// Records a client whose handshake succeeded, with the database it targets.
    pub fn connect(&mut self, client: C, db_name: String)
        ensures
            final(self).client == Some(client),
            final(self).db_name == Some(db_name),
    {
        self.client = Some(client);
        self.db_name = Some(db_name);
    }
}

} // verus!
