//! Instance creation: the kinds of instance a world can be opened as, and
//! the request record the remote catalog expects for each.

use vstd::prelude::*;

verus! {

/// The kind of instance to create, with its owner or group where one is
/// required.
pub enum InstanceType {
    Public,
    FriendsPlus(String),
    FriendsOnly(String),
    InvitePlus(String),
    InviteOnly(String),
    GroupPublic(String),
    GroupPlus(String),
    GroupOnly(GroupOnlyInstanceConfig),
}

impl InstanceType {
    /// A public instance.
    pub fn public() -> (r: Self)
        ensures
            r == InstanceType::Public,
    {
        InstanceType::Public
    }

    /// A friends+ instance owned by the given user.
    pub fn friends_plus(owner_user_id: &str) -> (r: Self)
        ensures
            r matches InstanceType::FriendsPlus(o) && o@ == owner_user_id@,
    {
        InstanceType::FriendsPlus(owner_user_id.to_owned())
    }

    /// A friends-only instance owned by the given user.
    pub fn friends_only(owner_user_id: &str) -> (r: Self)
        ensures
            r matches InstanceType::FriendsOnly(o) && o@ == owner_user_id@,
    {
        InstanceType::FriendsOnly(owner_user_id.to_owned())
    }

    /// An invite+ instance owned by the given user.
    pub fn invite_plus(owner_user_id: &str) -> (r: Self)
        ensures
            r matches InstanceType::InvitePlus(o) && o@ == owner_user_id@,
    {
        InstanceType::InvitePlus(owner_user_id.to_owned())
    }

    /// An invite-only instance owned by the given user.
    pub fn invite_only(owner_user_id: &str) -> (r: Self)
        ensures
            r matches InstanceType::InviteOnly(o) && o@ == owner_user_id@,
    {
        InstanceType::InviteOnly(owner_user_id.to_owned())
    }

    /// A group instance open to the public.
    pub fn group_public(group_id: &str) -> (r: Self)
        ensures
            r matches InstanceType::GroupPublic(g) && g@ == group_id@,
    {
        InstanceType::GroupPublic(group_id.to_owned())
    }

    /// A group+ instance.
    pub fn group_plus(group_id: &str) -> (r: Self)
        ensures
            r matches InstanceType::GroupPlus(g) && g@ == group_id@,
    {
        InstanceType::GroupPlus(group_id.to_owned())
    }

    /// A members-only group instance, restricted to the given roles where
    /// any are named.
    pub fn group_only(group_id: &str, allowed_roles: Option<Vec<String>>) -> (r: Self)
        ensures
            r matches InstanceType::GroupOnly(c) && c.group_id@ == group_id@ && c.allowed_roles
                == allowed_roles,
    {
        InstanceType::GroupOnly(
            GroupOnlyInstanceConfig { group_id: group_id.to_owned(), allowed_roles },
        )
    }
}

/// A members-only group instance: the group and, optionally, the roles
/// admitted.
pub struct GroupOnlyInstanceConfig {
    pub group_id: String,
    pub allowed_roles: Option<Vec<String>>,
}

/// The server regions an instance can be placed in.
#[derive(Clone, Copy, Debug, PartialEq, Eq, Structural)]
pub enum InstanceRegion {
    UsWest,
    UsEast,
    EU,
    JP,
}

/// Gathers what a create-instance request needs before building it.
pub struct CreateInstanceRequestBuilder {
    pub instance_type: InstanceType,
    pub world_id: String,
    pub region: InstanceRegion,
    pub queue_enabled: bool,
}

impl CreateInstanceRequestBuilder {
    /// Starts a request for the given world, kind, region and queue flag.
    pub fn new(
        instance_type: InstanceType,
        world_id: String,
        region: InstanceRegion,
        queue_enabled: bool,
    ) -> (r: Self)
        ensures
            r.instance_type == instance_type,
            r.world_id@ == world_id@,
            r.region == region,
            r.queue_enabled == queue_enabled,
    {
        CreateInstanceRequestBuilder { instance_type, world_id, region, queue_enabled }
    }

    /// Builds the wire request: each instance kind maps to its wire name,
    /// owner, role list, group access type and invite-request flag.
    pub fn build(self) -> (r: CreateInstanceRequest)
        ensures
            r.world_id@ == self.world_id@,
            r.region == self.region,
            r.queue_enabled == self.queue_enabled,
            self.instance_type matches InstanceType::Public ==> r.instance_type@ == "public"@
                && r.owner_id is None && r.role_ids.deep_view() == Seq::<Seq<char>>::empty()
                && r.group_access_type@ == "members"@ && !r.can_request_invite,
            self.instance_type matches InstanceType::FriendsPlus(o) ==> r.instance_type@
                == "hidden"@ && (r.owner_id matches Some(ro) && ro@ == o@) && r.role_ids.deep_view()
                == Seq::<Seq<char>>::empty() && r.group_access_type@ == "members"@
                && !r.can_request_invite,
            self.instance_type matches InstanceType::FriendsOnly(o) ==> r.instance_type@
                == "friends"@ && (r.owner_id matches Some(ro) && ro@ == o@)
                && r.role_ids.deep_view() == Seq::<Seq<char>>::empty() && r.group_access_type@
                == "members"@ && !r.can_request_invite,
            self.instance_type matches InstanceType::InvitePlus(o) ==> r.instance_type@
                == "private"@ && (r.owner_id matches Some(ro) && ro@ == o@)
                && r.role_ids.deep_view() == Seq::<Seq<char>>::empty() && r.group_access_type@
                == "members"@ && r.can_request_invite,
            self.instance_type matches InstanceType::InviteOnly(o) ==> r.instance_type@
                == "private"@ && (r.owner_id matches Some(ro) && ro@ == o@)
                && r.role_ids.deep_view() == Seq::<Seq<char>>::empty() && r.group_access_type@
                == "members"@ && !r.can_request_invite,
            self.instance_type matches InstanceType::GroupPublic(g) ==> r.instance_type@
                == "group"@ && (r.owner_id matches Some(ro) && ro@ == g@) && r.role_ids.deep_view()
                == Seq::<Seq<char>>::empty() && r.group_access_type@ == "public"@
                && !r.can_request_invite,
            self.instance_type matches InstanceType::GroupPlus(g) ==> r.instance_type@ == "group"@
                && (r.owner_id matches Some(ro) && ro@ == g@) && r.role_ids.deep_view()
                == Seq::<Seq<char>>::empty() && r.group_access_type@ == "plus"@
                && !r.can_request_invite,
            self.instance_type matches InstanceType::GroupOnly(c) ==> r.instance_type@ == "group"@
                && (r.owner_id matches Some(ro) && ro@ == c.group_id@) && (match c.allowed_roles {
                Some(roles) => r.role_ids@ == roles@,
                None => r.role_ids.deep_view() == Seq::<Seq<char>>::empty(),
            }) && r.group_access_type@ == "members"@ && !r.can_request_invite,
    {
        let (instance_type, owner_id, role_ids, group_access_type, can_request_invite): (
            String,
            Option<String>,
            Vec<String>,
            String,
            bool,
        ) = match self.instance_type {
            InstanceType::Public => (
                String::from_str("public"),
                None,
                Vec::new(),
                String::from_str("members"),
                false,
            ),
            InstanceType::FriendsPlus(owner_id) => (
                String::from_str("hidden"),
                Some(owner_id),
                Vec::new(),
                String::from_str("members"),
                false,
            ),
            InstanceType::FriendsOnly(owner_id) => (
                String::from_str("friends"),
                Some(owner_id),
                Vec::new(),
                String::from_str("members"),
                false,
            ),
            InstanceType::InvitePlus(owner_id) => (
                String::from_str("private"),
                Some(owner_id),
                Vec::new(),
                String::from_str("members"),
                true,
            ),
            InstanceType::InviteOnly(owner_id) => (
                String::from_str("private"),
                Some(owner_id),
                Vec::new(),
                String::from_str("members"),
                false,
            ),
            InstanceType::GroupPublic(group_id) => (
                String::from_str("group"),
                Some(group_id),
                Vec::new(),
                String::from_str("public"),
                false,
            ),
            InstanceType::GroupPlus(group_id) => (
                String::from_str("group"),
                Some(group_id),
                Vec::new(),
                String::from_str("plus"),
                false,
            ),
            InstanceType::GroupOnly(config) => (
                String::from_str("group"),
                Some(config.group_id),
                match config.allowed_roles {
                    Some(roles) => roles,
                    None => Vec::new(),
                },
                String::from_str("members"),
                false,
            ),
        };
        proof {
            if role_ids@.len() == 0 {
                assert(role_ids.deep_view() =~= Seq::<Seq<char>>::empty());
            }
        }
        CreateInstanceRequest {
            world_id: self.world_id,
            instance_type,
            region: self.region,
            owner_id,
            role_ids,
            group_access_type,
            queue_enabled: self.queue_enabled,
            can_request_invite,
        }
    }
}

/// The create-instance request as the remote catalog takes it.
pub struct CreateInstanceRequest {
    pub world_id: String,
    pub instance_type: String,
    pub region: InstanceRegion,
    pub owner_id: Option<String>,
    pub role_ids: Vec<String>,
    pub group_access_type: String,
    pub queue_enabled: bool,
    pub can_request_invite: bool,
}

/// An instance as the remote catalog reports it.
pub struct Instance {
    pub id: String,
    pub instance_id: String,
    pub owner_id: Option<String>,
    pub photon_region: InstanceRegion,
    pub region: InstanceRegion,
    pub short_name: Option<String>,
    pub world_id: String,
}

/// The short-name lookup response for an instance.
pub struct GetInstanceShortNameResponse {
    pub secure_name: String,
    pub short_name: Option<String>,
}

} // verus!
