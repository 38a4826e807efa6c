# aselect

Decision logic of a select object that waits on several asynchronous arms without
cancelling or starving any of them, with machine-checked contracts.

* `src/` – the verified library: handler outputs (`output`), the per-round cancellation
  bit set (`canceler`), the per-arm state machine (`arm`), the rounds of one poll
  (`poll`), the whole poll over the arms (`select`) and the capture cells shared by arms (`capture`).
* `tests/` – tests of the library on concrete values.
* `app/` – a `Future`/`futures::Stream` select object that hands real futures to the
  library's arms and poll.
