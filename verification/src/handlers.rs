//! The request and response shapes of the room-management surface. The
//! transport itself (HTTP, JSON) lives outside the library; these are the
//! plain values it hands in and takes back.

use vstd::prelude::*;

verus! {

/// Ask to create a room.
pub struct CreateRoomRequest {
    pub name: String,
    pub password: Option<String>,
}

/// Ask to enter a room.
pub struct JoinRoomRequest {
    pub room_id: String,
    pub password: Option<String>,
}

/// Ask to replace a room's password.
pub struct UpdatePasswordRequest {
    pub room_id: String,
    pub new_password: String,
}

/// The uniform reply of the room-management surface: either a payload or a
/// message, never both.
pub struct ApiResponse<T> {
    pub success: bool,
    pub data: Option<T>,
    pub message: Option<String>,
}

impl<T> ApiResponse<T> {
    pub fn success(data: T) -> (r: Self)
        ensures
            r.success == true,
            r.data == Some(data),
            r.message is None,
    {
        ApiResponse { success: true, data: Some(data), message: None }
    }

    pub fn error(message: String) -> (r: Self)
        ensures
            r.success == false,
            r.data is None,
            r.message == Some(message),
    {
        ApiResponse { success: false, data: None, message: Some(message) }
    }
}

} // verus!
