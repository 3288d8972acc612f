pub mod crud_operation;
pub mod crud_operation_result;
