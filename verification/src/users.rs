//! The users and groups of the system.

use crate::text::{
    ascii, ascii_bytes, ends_with, has_suffix, parse_u16, spec_parse_u16, split, split_on, trim,
    trimmed, views, ParseError,
};
use vstd::prelude::*;
use vstd::slice::slice_to_vec;

verus! {

/// What kind of account a user is.
#[derive(Clone, Copy, Debug, PartialEq, Eq)]
pub enum UserKind {
    /// The user of id 0.
    Root,
    /// A user who may log in.
    User,
    /// A user whose shell is `nologin`.
    Nologin,
}

/// A user of the system.
#[derive(Debug)]
pub struct UserInfo {
    pub name: Vec<u8>,
    pub uid: u16,
    pub gid: u16,
    pub description: Vec<u8>,
    pub kind: UserKind,
}

/// A user as a mathematical value.
pub struct UserInfoModel {
    pub name: Seq<u8>,
    pub uid: u16,
    pub gid: u16,
    pub description: Seq<u8>,
    pub kind: UserKind,
}

impl DeepView for UserInfo {
    type V = UserInfoModel;

    open spec fn deep_view(&self) -> UserInfoModel {
        UserInfoModel {
            name: self.name@,
            uid: self.uid,
            gid: self.gid,
            description: self.description@,
            kind: self.kind,
        }
    }
}

impl UserInfo {
    /// What a line of `/etc/passwd` holds: seven fields between colons, of which
    /// the third and fourth are the ids and the last is the shell.
    pub open spec fn spec_new(line: Seq<u8>) -> Result<UserInfoModel, ParseError> {
        let f = split_on(trimmed(line), 58);
        if f.len() < 7 {
            Err(ParseError::MissingField)
        } else {
            match (spec_parse_u16(f[2]), spec_parse_u16(f[3])) {
                (Some(uid), Some(gid)) => Ok(
                    UserInfoModel {
                        name: f[0],
                        uid,
                        gid,
                        description: f[4],
                        kind: if uid == 0 {
                            UserKind::Root
                        } else if has_suffix(f[6], ascii_bytes("nologin"@)) {
                            UserKind::Nologin
                        } else {
                            UserKind::User
                        },
                    },
                ),
                _ => Err(ParseError::InvalidNumber),
            }
        }
    }

    /// Parses a line of `/etc/passwd`.
    pub fn new(line: &[u8]) -> (r: Result<UserInfo, ParseError>)
        ensures
            match r {
                Ok(u) => Self::spec_new(line@) == Ok::<UserInfoModel, ParseError>(u.deep_view()),
                Err(e) => Self::spec_new(line@) == Err::<UserInfoModel, ParseError>(e),
            },
    {
        let f: Vec<&[u8]> = split(trim(line), 58);
        if f.len() < 7 {
            return Err(ParseError::MissingField);
        }
        proof {
            reveal_strlit("nologin");
            assert(views(f@)[0] == f@[0]@);
            assert(views(f@)[2] == f@[2]@);
            assert(views(f@)[3] == f@[3]@);
            assert(views(f@)[4] == f@[4]@);
            assert(views(f@)[6] == f@[6]@);
        }
        match (parse_u16(f[2]), parse_u16(f[3])) {
            (Some(uid), Some(gid)) => {
                let kind: UserKind = if uid == 0 {
                    UserKind::Root
                } else if ends_with(f[6], ascii("nologin")) {
                    UserKind::Nologin
                } else {
                    UserKind::User
                };
                Ok(
                    UserInfo {
                        name: slice_to_vec(f[0]),
                        uid,
                        gid,
                        description: slice_to_vec(f[4]),
                        kind,
                    },
                )
            },
            _ => Err(ParseError::InvalidNumber),
        }
    }
}

/// A group of users.
#[derive(Debug)]
pub struct GroupInfo {
    pub name: Vec<u8>,
    pub gid: u16,
    /// The names of the members. A group without members has one empty name.
    pub users: Vec<Vec<u8>>,
}

/// A group as a mathematical value.
pub struct GroupInfoModel {
    pub name: Seq<u8>,
    pub gid: u16,
    pub users: Seq<Seq<u8>>,
}

impl DeepView for GroupInfo {
    type V = GroupInfoModel;

    open spec fn deep_view(&self) -> GroupInfoModel {
        GroupInfoModel { name: self.name@, gid: self.gid, users: self.users.deep_view() }
    }
}

impl GroupInfo {
    /// What a line of `/etc/group` holds: four fields between colons, of which the
    /// third is the id and the fourth lists the members between commas.
    pub open spec fn spec_new(line: Seq<u8>) -> Result<GroupInfoModel, ParseError> {
        let f = split_on(trimmed(line), 58);
        if f.len() < 4 {
            Err(ParseError::MissingField)
        } else {
            match spec_parse_u16(f[2]) {
                Some(gid) => Ok(GroupInfoModel { name: f[0], gid, users: split_on(f[3], 44) }),
                None => Err(ParseError::InvalidNumber),
            }
        }
    }

    /// Parses a line of `/etc/group`.
    pub fn new(line: &[u8]) -> (r: Result<GroupInfo, ParseError>)
        ensures
            match r {
                Ok(g) => Self::spec_new(line@) == Ok::<GroupInfoModel, ParseError>(g.deep_view()),
                Err(e) => Self::spec_new(line@) == Err::<GroupInfoModel, ParseError>(e),
            },
    {
        let f: Vec<&[u8]> = split(trim(line), 58);
        if f.len() < 4 {
            return Err(ParseError::MissingField);
        }
        proof {
            assert(views(f@)[0] == f@[0]@);
            assert(views(f@)[2] == f@[2]@);
            assert(views(f@)[3] == f@[3]@);
        }
        let gid: u16 = match parse_u16(f[2]) {
            Some(gid) => gid,
            None => { return Err(ParseError::InvalidNumber); },
        };
        let members: Vec<&[u8]> = split(f[3], 44);
        let mut users: Vec<Vec<u8>> = Vec::new();
        let mut i: usize = 0;
        assert(users.deep_view() =~= views(members@).subrange(0, 0));
        while i < members.len()
            invariant
                i <= members@.len(),
                users.deep_view() == views(members@).subrange(0, i as int),
            decreases members@.len() - i,
        {
            let ghost before = users.deep_view();
            let member: Vec<u8> = slice_to_vec(members[i]);
            assert(member.deep_view() =~= member@);
            users.push(member);
            assert(users.deep_view() =~= before.push(members@[i as int]@));
            assert(users.deep_view() =~= views(members@).subrange(0, i + 1));
            i += 1;
        }
        assert(views(members@).subrange(0, i as int) =~= views(members@));
        Ok(GroupInfo { name: slice_to_vec(f[0]), gid, users })
    }
}

} // verus!
