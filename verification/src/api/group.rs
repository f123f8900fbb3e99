//! Group records from the remote catalog, and the decision of what kinds
//! of group instance the signed-in member may create.

use vstd::prelude::*;

verus! {

/// A group the user belongs to, as the catalog lists it.
pub struct UserGroup {
    pub id: String,
    pub name: String,
    pub short_code: String,
    pub discriminator: String,
    pub description: String,
    pub icon_url: Option<String>,
    pub banner_url: Option<String>,
    pub privacy: String,
    pub member_count: i32,
    pub group_id: String,
    pub member_visibility: GroupMemberVisibility,
    pub is_representing: bool,
    pub mutual_group: bool,
}

/// Who may see the user's membership in a group.
#[derive(Clone, Copy, Debug, PartialEq, Eq, Structural)]
pub enum GroupMemberVisibility {
    Visible,
    Friends,
    Hidden,
}

impl Default for GroupMemberVisibility {
    /// Membership is visible by default.
    fn default() -> (r: Self)
        ensures
            r == GroupMemberVisibility::Visible,
    {
        GroupMemberVisibility::Visible
    }
}

/// Whether the member may create group instances, and of which kinds.
#[derive(Clone, Debug, PartialEq, Eq, Structural)]
pub enum GroupInstanceCreatePermission {
    Allowed(GroupInstanceCreateAllowedType),
    NotAllowed,
}

impl GroupInstanceCreatePermission {
    /// Every kind of group instance may be created.
    pub fn all() -> (r: Self)
        ensures
            r == GroupInstanceCreatePermission::Allowed(
                GroupInstanceCreateAllowedType {
                    normal: true,
                    plus: true,
                    public: true,
                    restricted: true,
                },
            ),
    {
        GroupInstanceCreatePermission::Allowed(
            GroupInstanceCreateAllowedType { normal: true, plus: true, public: true, restricted: true },
        )
    }

    /// The listed kinds may be created.
    pub fn partial(normal: bool, plus: bool, public: bool, restricted: bool) -> (r: Self)
        ensures
            r == GroupInstanceCreatePermission::Allowed(
                GroupInstanceCreateAllowedType { normal, plus, public, restricted },
            ),
    {
        GroupInstanceCreatePermission::Allowed(
            GroupInstanceCreateAllowedType { normal, plus, public, restricted },
        )
    }

    /// No group instance may be created.
    pub fn none() -> (r: Self)
        ensures
            r == GroupInstanceCreatePermission::NotAllowed,
    {
        GroupInstanceCreatePermission::NotAllowed
    }
}

/// Which kinds of group instance creation are allowed.
#[derive(Clone, Copy, Debug, PartialEq, Eq, Structural)]
pub struct GroupInstanceCreateAllowedType {
    pub normal: bool,
    pub plus: bool,
    pub public: bool,
    pub restricted: bool,
}

/// The creation permission together with the group's roles.
pub struct GroupInstancePermissionInfo {
    pub permission: GroupInstanceCreatePermission,
    pub roles: Vec<GroupRole>,
}

/// A group, with the signed-in user's membership where they belong to it.
pub struct GroupDetails {
    pub id: String,
    pub name: String,
    pub icon_url: Option<String>,
    pub banner_url: Option<String>,
    pub my_member: Option<GroupMyMember>,
    pub roles: Vec<GroupRole>,
}

/// One role of a group.
pub struct GroupRole {
    pub id: String,
    pub group_id: String,
    pub name: String,
    pub permissions: Vec<GroupPermission>,
    pub is_management_role: bool,
}

/// The signed-in user's membership record in a group.
pub struct GroupMyMember {
    pub id: String,
    pub group_id: String,
    pub user_id: String,
    pub role_ids: Vec<String>,
    pub permissions: Vec<GroupPermission>,
}

/// The permissions a group can grant.
#[derive(Clone, Copy, Debug, PartialEq, Eq, Structural)]
pub enum GroupPermission {
    All,
    GroupAnnouncementManage,
    GroupAuditView,
    GroupBansManage,
    GroupDataManage,
    GroupDefaultRoleManage,
    GroupGalleriesManage,
    GroupInstanceAgeGatedCreate,
    GroupInstanceJoin,
    GroupInstanceManage,
    GroupInstanceModerate,
    GroupInstanceOpenCreate,
    GroupInstancePlusCreate,
    GroupInstancePlusPortal,
    GroupInstancePlusPortalUnlocked,
    GroupInstancePublicCreate,
    GroupInstanceQueuePriority,
    GroupInstanceRestrictedCreate,
    GroupInvitesManage,
    GroupMembersManage,
    GroupMembersRemove,
    GroupMembersViewall,
    GroupRolesAssign,
    GroupRolesManage,
}

/// Whether a permission list grants `p`.
pub fn has_permission(perms: &Vec<GroupPermission>, p: GroupPermission) -> (r: bool)
    ensures
        r == perms@.contains(p),
{
    let mut i: usize = 0;
    while i < perms.len()
        invariant
            0 <= i <= perms@.len(),
            forall|k: int| 0 <= k < i ==> perms@[k] != p,
        decreases perms@.len() - i,
    {
        if perms[i] == p {
            return true;
        }
        i = i + 1;
    }
    false
}

/// The instance-creation permission a permission list grants: everything
/// under the wildcard; otherwise the kinds granted one by one, or nothing
/// where none is.
pub open spec fn spec_create_permission(perms: Seq<GroupPermission>) -> GroupInstanceCreatePermission {
    if perms.contains(GroupPermission::All) {
        GroupInstanceCreatePermission::Allowed(
            GroupInstanceCreateAllowedType { normal: true, plus: true, public: true, restricted: true },
        )
    } else {
        let normal = perms.contains(GroupPermission::GroupInstanceOpenCreate);
        let plus = perms.contains(GroupPermission::GroupInstancePlusCreate);
        let public = perms.contains(GroupPermission::GroupInstancePublicCreate);
        let restricted = perms.contains(GroupPermission::GroupInstanceRestrictedCreate);
        if !normal && !plus && !public && !restricted {
            GroupInstanceCreatePermission::NotAllowed
        } else {
            GroupInstanceCreatePermission::Allowed(
                GroupInstanceCreateAllowedType { normal, plus, public, restricted },
            )
        }
    }
}

/// Decides from fetched group details what kinds of group instance the
/// signed-in member may create there: nothing where they are no member,
/// else what their permissions grant (see [`spec_create_permission`]).
/// The group's roles ride along unchanged.
pub fn permission_info_from_details(details: GroupDetails) -> (r: GroupInstancePermissionInfo)
    ensures
        details.my_member is None ==> r.permission == GroupInstanceCreatePermission::NotAllowed,
        details.my_member matches Some(m) ==> r.permission == spec_create_permission(
            m.permissions@,
        ),
        r.roles == details.roles,
{
    let permission = match &details.my_member {
        None => GroupInstanceCreatePermission::none(),
        Some(my_member) => {
            if has_permission(&my_member.permissions, GroupPermission::All) {
                GroupInstanceCreatePermission::all()
            } else {
                let normal = has_permission(
                    &my_member.permissions,
                    GroupPermission::GroupInstanceOpenCreate,
                );
                let plus = has_permission(
                    &my_member.permissions,
                    GroupPermission::GroupInstancePlusCreate,
                );
                let public = has_permission(
                    &my_member.permissions,
                    GroupPermission::GroupInstancePublicCreate,
                );
                let restricted = has_permission(
                    &my_member.permissions,
                    GroupPermission::GroupInstanceRestrictedCreate,
                );
                if !normal && !plus && !public && !restricted {
                    GroupInstanceCreatePermission::none()
                } else {
                    GroupInstanceCreatePermission::partial(normal, plus, public, restricted)
                }
            }
        },
    };
    GroupInstancePermissionInfo { permission, roles: details.roles }
}

} // verus!
