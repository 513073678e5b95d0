pub mod bubble_sort;
pub mod quick_sort;
pub mod selection_sort;
