//! Binary duty states and the classification of upstream status
//! records into them.

use vstd::prelude::*;

verus! {

/// The binary duty state recorded in every table cell.
#[derive(Clone, Copy, PartialEq, Eq, Structural, Debug)]
pub enum Status {
    OnDuty,
    OffDuty,
}

/// Errors of the aggregation engine.
#[derive(Clone, Copy, PartialEq, Eq, Structural, Debug)]
pub enum DutyError {
    /// The status source returned a record with an unrecognized status
    /// identifier.
    UpstreamFetch,
    /// An empty snapshot; rejected before any mutation of the table.
    MalformedSnapshot,
    /// The persisted table could not be parsed.
    StorageRead,
    /// The persisted table could not be written.
    StorageWrite,
}

/// Classification of a status label: anything other than the
/// designated off-duty label counts as on duty.
pub open spec fn spec_classify(name: Seq<char>, off_duty_keyword: Seq<char>) -> Status {
    if name == off_duty_keyword {
        Status::OffDuty
    } else {
        Status::OnDuty
    }
}

impl Status {
    /// Collapse a status label to the binary duty state by a single
    /// sentinel-label match.
    pub fn new(status_name: &str, off_duty_keyword: &str) -> (s: Status)
        ensures
            s == spec_classify(status_name@, off_duty_keyword@),
    {
        if status_name.to_owned() == off_duty_keyword.to_owned() {
            Status::OffDuty
        } else {
            Status::OnDuty
        }
    }

    /// The cell label under which this state is persisted and printed.
    pub fn label(&self) -> (r: String)
        ensures
            r@ == self.spec_label(),
    {
        proof {
            reveal_strlit("On Duty");
            reveal_strlit("Off Duty");
        }
        match self {
            Status::OnDuty => "On Duty".to_owned(),
            Status::OffDuty => "Off Duty".to_owned(),
        }
    }

    pub open spec fn spec_label(self) -> Seq<char> {
        match self {
            Status::OnDuty => "On Duty"@,
            Status::OffDuty => "Off Duty"@,
        }
    }
}

/// One person's observed state in a snapshot.
pub struct UserStatus {
    pub firstname: String,
    pub lastname: String,
    pub status: Status,
}

/// A status record of the upstream source, reduced to plain values:
/// the person's names and the identifier of their current status.
pub struct RawUser {
    pub firstname: String,
    pub lastname: String,
    pub status_id: i64,
}

/// One entry of the upstream status vocabulary: an identifier and the
/// label it stands for.
pub struct StatusDescription {
    pub id: i64,
    pub name: String,
}

/// The stable row key of a person: firstname, a space, lastname.
pub open spec fn spec_full_name(firstname: Seq<char>, lastname: Seq<char>) -> Seq<char> {
    firstname + seq![' '] + lastname
}

impl UserStatus {
    /// The row key under which this person is accumulated.
    pub fn full_name(&self) -> (r: String)
        ensures
            r@ == spec_full_name(self.firstname@, self.lastname@),
    {
        proof {
            reveal_strlit(" ");
        }
        let r = self.firstname.clone().concat(" ").concat(self.lastname.as_str());
        proof {
            assert(r@ =~= spec_full_name(self.firstname@, self.lastname@));
        }
        r
    }

    /// Whether an identifier is described by the vocabulary.
    pub open spec fn spec_id_known(descriptions: Seq<StatusDescription>, id: i64) -> bool {
        exists|k: int| 0 <= k < descriptions.len() && descriptions[k].id == id
    }

    /// The label of the first vocabulary entry carrying the identifier.
    pub open spec fn spec_label_of_id(descriptions: Seq<StatusDescription>, id: i64) -> Seq<
        char,
    >
        decreases descriptions.len(),
    {
        if descriptions.len() == 0 {
            Seq::empty()
        } else if descriptions[0].id == id {
            descriptions[0].name@
        } else {
            Self::spec_label_of_id(descriptions.drop_first(), id)
        }
    }

    /// Classify every status record of one snapshot against the status
    /// vocabulary, using the injected off-duty label.
    ///
    /// Fails with `UpstreamFetch` exactly when some record carries an
    /// identifier the vocabulary does not describe.
    pub fn new_user_status(
        users: &Vec<RawUser>,
        status_descriptions: &Vec<StatusDescription>,
        off_duty_keyword: &str,
    ) -> (r: Result<Vec<UserStatus>, DutyError>)
        ensures
            r is Ok <==> (forall|i: int|
                0 <= i < users@.len() ==> Self::spec_id_known(
                    status_descriptions@,
                    users@[i].status_id,
                )),
            r is Ok ==> {
                let out = r->Ok_0;
                &&& out@.len() == users@.len()
                &&& forall|i: int|
                    0 <= i < users@.len() ==> {
                        &&& (#[trigger] out@[i]).firstname@ == users@[i].firstname@
                        &&& out@[i].lastname@ == users@[i].lastname@
                        &&& out@[i].status == spec_classify(
                            Self::spec_label_of_id(status_descriptions@, users@[i].status_id),
                            off_duty_keyword@,
                        )
                    }
            },
            r is Err ==> r->Err_0 == DutyError::UpstreamFetch,
    {
        let mut out: Vec<UserStatus> = Vec::new();
        let mut i: usize = 0;
        while i < users.len()
            invariant
                0 <= i <= users@.len(),
                out@.len() == i,
                forall|k: int|
                    0 <= k < i ==> Self::spec_id_known(status_descriptions@, users@[k].status_id),
                forall|k: int|
                    0 <= k < i ==> {
                        &&& (#[trigger] out@[k]).firstname@ == users@[k].firstname@
                        &&& out@[k].lastname@ == users@[k].lastname@
                        &&& out@[k].status == spec_classify(
                            Self::spec_label_of_id(status_descriptions@, users@[k].status_id),
                            off_duty_keyword@,
                        )
                    },
            decreases users@.len() - i,
        {
            let user = &users[i];
            match Self::find_label(status_descriptions, user.status_id) {
                None => {
                    return Err(DutyError::UpstreamFetch);
                },
                Some(label) => {
                    let status = Status::new(label.as_str(), off_duty_keyword);
                    out.push(
                        UserStatus {
                            firstname: user.firstname.clone(),
                            lastname: user.lastname.clone(),
                            status,
                        },
                    );
                },
            }
            i += 1;
        }
        Ok(out)
    }

    /// Find the label of the first vocabulary entry with this
    /// identifier.
    fn find_label(descriptions: &Vec<StatusDescription>, id: i64) -> (r: Option<String>)
        ensures
            r is Some <==> Self::spec_id_known(descriptions@, id),
            r is Some ==> r->0@ == Self::spec_label_of_id(descriptions@, id),
    {
        let mut i: usize = 0;
        proof {
            assert(descriptions@.skip(0) =~= descriptions@);
        }
        while i < descriptions.len()
            invariant
                0 <= i <= descriptions@.len(),
                forall|k: int| 0 <= k < i ==> descriptions@[k].id != id,
                Self::spec_label_of_id(descriptions@, id) == Self::spec_label_of_id(
                    descriptions@.skip(i as int),
                    id,
                ),
            decreases descriptions@.len() - i,
        {
            if descriptions[i].id == id {
                proof {
                    assert(descriptions@.skip(i as int)[0] == descriptions@[i as int]);
                }
                return Some(descriptions[i].name.clone());
            }
            proof {
                assert(descriptions@.skip(i as int).drop_first() =~= descriptions@.skip(
                    i as int + 1,
                ));
            }
            i += 1;
        }
        proof {
            assert(forall|k: int|
                0 <= k < descriptions@.len() ==> descriptions@[k].id != id);
        }
        None
    }
}

} // verus!
