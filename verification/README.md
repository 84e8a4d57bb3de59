# branchless

A set of tools for working with Git commit graphs without branches: a
smartlog that draws the commits you work on, hiding and unhiding commits,
moving subtrees of commits with an in-memory rebase, restacking abandoned
commits, and undoing any of it from an event log.

The library under `src/` is written in Verus. Each public function carries
a contract over a mathematical model of its data, and the laws of the
library stand as proof functions next to the code they are about:

- `eventlog`, `visibility`, `undo`, `rewrite`, `describe`: the event log,
  its replay and cursors, commit visibility, and the undo plan.
- `plan`, `rebase`, `execute`, `post_rewrite`, `restack`, `upstream`: rebase
  plans, their execution, and what happens after commits are rewritten.
- `smartlog`, `formatting`, `metadata`, `node_descriptors`, `repo`: drawing
  the commit graph and describing commits and references.
- `hooks`, `init`, `gc`, `hiding`, `navigation`, `moving`, `amend`, `reword`,
  `tree`, `helpers`: the logic of the commands and the Git hooks.
- `oid`, `text`: object IDs and text helpers.

Calls into `git2` and `regex` that the logic needs go through a few small
trusted wrappers whose contracts are stated in their doc comments.

`app/` is the command-line program around the library: argument parsing,
the repository and database access, terminal output and the rebase driver.
