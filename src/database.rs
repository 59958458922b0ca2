//! Both tables behind one handle: writes go to the primary table and then to
//! the index; each read is served by one table.
use crate::accounts::{
    all_representable, distinct_ids, first_unrepresentable, has_date_from, lookup_matches, value_or_empty,
    day_ids_of_dates, AccountTable, AccountTableCounts,
};
use crate::codec::{encode_day_ids, encode_ids, id_prefix, pair_key, screen_name_key, valid_screen_name};
use crate::date::{epoch_offset, Date};
use crate::error::Error;
use crate::merge::{merged_day_ids_value, merged_ids_value};
use crate::screen_names::{mapping_total, name_ids_match, rebuilt_map, ScreenNameTable, ScreenNameTableCounts};
use crate::store::prefix_rows;
use crate::table::{Mode, Writeable};
use vstd::prelude::*;

verus! {

/// The primary table and its index.
pub struct Database<M> {
    pub accounts: AccountTable<M>,
    pub screen_names: ScreenNameTable<M>,
}

impl<M> Database<M> {
    /// Both tables are well formed.
    pub open spec fn wf(&self) -> bool {
        self.accounts.wf() && self.screen_names.wf()
    }

    /// The counts of both tables, computed one after the other.
    pub fn get_counts(&self) -> (r: Result<(AccountTableCounts, ScreenNameTableCounts), Error>)
        requires
            self.wf(),
        ensures
            r matches Ok(c) && c.0.pair_count == self.accounts.rows().len() && c.0.id_count == distinct_ids(
                self.accounts.rows(),
            ).len() && c.1.screen_name_count == self.screen_names.rows().len() && c.1.mapping_count == (if mapping_total(
                self.screen_names.rows(),
            ) <= u64::MAX {
                mapping_total(self.screen_names.rows())
            } else {
                u64::MAX as nat
            }),
    {
        let account_counts = self.accounts.get_counts()?;
        let screen_name_counts = self.screen_names.get_counts()?;
        Ok((account_counts, screen_name_counts))
    }

    /// The screen names of an account, each with its dates, in key order.
    pub fn lookup_by_user_id(&self, user_id: u64) -> (r: Result<Vec<(String, Vec<Date>)>, Error>)
        requires
            self.wf(),
        ensures
            r matches Ok(v) && lookup_matches(v@, prefix_rows(self.accounts.rows(), id_prefix(user_id))),
    {
        self.accounts.lookup(user_id)
    }

    /// The ids that have used a screen name, without regard to case.
    pub fn lookup_by_screen_name(&self, screen_name: &str) -> (r: Result<Vec<u64>, Error>)
        requires
            self.wf(),
        ensures
            r matches Ok(v) && v@ == self.screen_names.ids_for(screen_name@),
    {
        self.screen_names.lookup(screen_name)
    }

    /// The screen names that start with a prefix, without regard to case,
    /// with their ids, at most `limit` of them.
    pub fn lookup_by_screen_name_prefix(&self, screen_name_prefix: &str, limit: usize) -> (r: Result<
        Vec<(String, Vec<u64>)>,
        Error,
    >)
        requires
            self.wf(),
        ensures
            r matches Ok(v) && v@.len() == (if limit < prefix_rows(
                self.screen_names.rows(),
                screen_name_key(screen_name_prefix@),
            ).len() {
                limit as int
            } else {
                prefix_rows(self.screen_names.rows(), screen_name_key(screen_name_prefix@)).len() as int
            }) && (forall|i: int|
                0 <= i < v@.len() ==> name_ids_match(
                    #[trigger] v@[i],
                    prefix_rows(self.screen_names.rows(), screen_name_key(screen_name_prefix@))[i],
                )),
    {
        self.screen_names.lookup_by_prefix(screen_name_prefix, limit)
    }

    /// The screen names of an account with a date on or after `earliest`,
    /// or all of them where no date is given.
    pub fn limited_lookup_by_user_id(&self, user_id: u64, earliest: Option<Date>) -> (r: Result<
        Vec<(String, Vec<Date>)>,
        Error,
    >)
        requires
            self.wf(),
        ensures
            earliest is None ==> (r matches Ok(v) && lookup_matches(v@, prefix_rows(self.accounts.rows(), id_prefix(user_id)))),
            earliest matches Some(e) ==> (r matches Ok(v) && lookup_matches(
                v@,
                prefix_rows(self.accounts.rows(), id_prefix(user_id)).filter(
                    |row: (Seq<u8>, Seq<u8>)| has_date_from(row.1, e),
                ),
            )),
    {
        match earliest {
            Some(earliest) => self.accounts.limited_lookup(user_id, earliest),
            None => self.accounts.lookup(user_id),
        }
    }
}

impl<M: Mode> Database<M> {
    /// A database with both tables empty.
    pub fn open() -> (r: Self)
        ensures
            r.wf(),
            r.accounts.rows() == Seq::<(Seq<u8>, Seq<u8>)>::empty(),
            r.screen_names.rows() == Seq::<(Seq<u8>, Seq<u8>)>::empty(),
    {
        Database { accounts: AccountTable::open(), screen_names: ScreenNameTable::open() }
    }
}

impl Database<Writeable> {
    /// Records an observation: the primary table first, then the index. A
    /// refused screen name or date writes to neither.
    pub fn insert(&mut self, id: u64, screen_name: &str, dates: Vec<Date>) -> (r: Result<(), Error>)
        requires
            old(self).wf(),
        ensures
            final(self).wf(),
            !valid_screen_name(screen_name@) ==> (r matches Err(Error::InvalidScreenName(s)) && s@
                == screen_name@),
            forall|i: int|
                valid_screen_name(screen_name@) && first_unrepresentable(dates@, i) ==> r
                    == Err::<(), Error>(Error::InvalidDay(epoch_offset(#[trigger] dates@[i]) as i64)),
            r is Err ==> final(self).accounts.rows() == old(self).accounts.rows() && final(self).screen_names.rows()
                == old(self).screen_names.rows(),
            valid_screen_name(screen_name@) && all_representable(dates@) ==> r is Ok,
            r is Ok ==> final(self).accounts.map() == old(self).accounts.map().insert(
                pair_key(id, screen_name@),
                merged_day_ids_value(
                    value_or_empty(old(self).accounts.map(), pair_key(id, screen_name@)),
                    encode_day_ids(day_ids_of_dates(dates@)),
                ),
            ),
            r is Ok ==> final(self).screen_names.map() == old(self).screen_names.map().insert(
                screen_name_key(screen_name@),
                merged_ids_value(
                    value_or_empty(old(self).screen_names.map(), screen_name_key(screen_name@)),
                    encode_ids(seq![id]),
                ),
            ),
    {
        self.accounts.insert(id, screen_name, dates)?;
        self.screen_names.insert(screen_name, id)?;
        Ok(())
    }

    /// Derives the index anew from the primary table.
    pub fn rebuild_index(&mut self) -> (r: Result<(), Error>)
        requires
            old(self).wf(),
        ensures
            r is Ok,
            final(self).wf(),
            final(self).accounts.rows() == old(self).accounts.rows(),
            final(self).screen_names.map() == rebuilt_map(old(self).accounts.rows()),
    {
        self.screen_names.rebuild(&self.accounts)
    }
}

} // verus!
